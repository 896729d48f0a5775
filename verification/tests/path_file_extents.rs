use fslab::error::ErrorKind;
use fslab::path_file_extents::{coalesce_extents, paginate_extents, FileExtent, FileExtentPage};

#[test]
fn paginates_fragmented_mapping_by_extent_count() {
    let extents = coalesce_extents(&[20, 21, 40, 60, 61]).unwrap();
    let first = paginate_extents(extents.clone(), None, 2).unwrap();
    assert_eq!(
        first,
        FileExtentPage {
            extents: vec![
                FileExtent { logical_start: 0, physical_start: 20, block_count: 2 },
                FileExtent { logical_start: 2, physical_start: 40, block_count: 1 },
            ],
            next_after_logical: Some(2),
        }
    );
    assert_eq!(
        paginate_extents(extents, first.next_after_logical, 2).unwrap(),
        FileExtentPage {
            extents: vec![FileExtent { logical_start: 3, physical_start: 60, block_count: 2 }],
            next_after_logical: None,
        }
    );
}

#[test]
fn cursor_inside_extent_clips_without_repeating_blocks() {
    let extents = vec![FileExtent { logical_start: 4, physical_start: 100, block_count: 5 }];
    assert_eq!(
        paginate_extents(extents, Some(5), 1).unwrap(),
        FileExtentPage {
            extents: vec![FileExtent { logical_start: 6, physical_start: 102, block_count: 3 }],
            next_after_logical: None,
        }
    );
}

#[test]
fn stale_cursor_between_extents_advances_to_next_run() {
    let extents = vec![
        FileExtent { logical_start: 0, physical_start: 10, block_count: 2 },
        FileExtent { logical_start: 4, physical_start: 30, block_count: 2 },
    ];
    assert_eq!(
        paginate_extents(extents, Some(2), 1).unwrap().extents,
        vec![FileExtent { logical_start: 4, physical_start: 30, block_count: 2 }]
    );
}

#[test]
fn rejects_zero_page_limit() {
    assert_eq!(
        paginate_extents(Vec::new(), None, 0).unwrap_err().kind(),
        ErrorKind::InvalidInput
    );
}
