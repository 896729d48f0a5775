pub mod allocation;
pub mod allocation_disk;
pub mod block;
pub mod bytes;
pub mod contents;
pub mod create_data_tx;
pub mod directory_codec;
pub mod directory_table;
pub mod directory_tx;
pub mod error;
pub mod file_append_batch;
pub mod file_append_contiguous;
pub mod file_blocks;
pub mod file_clone_insert;
pub mod file_clone_splice;
pub mod file_collapse;
pub mod file_copy_range;
pub mod file_data;
pub mod file_exchange;
pub mod file_extending_write;
pub mod file_hole_punch;
pub mod file_insert_batch;
pub mod file_range_read;
pub mod file_remove;
pub mod file_replace;
pub mod file_replace_contiguous;
pub mod file_transfer;
pub mod file_whole_exchange;
pub mod filesystem_space;
pub mod format;
pub mod format_capacity;
pub mod format_geometry;
pub mod fsck;
pub mod fsck_repair;
pub mod hard_link_tx;
pub mod hard_unlink_tx;
pub mod inode;
pub mod inode_codec;
pub mod inode_table;
pub mod journal;
pub mod journal_checkpoint;
pub mod journal_codec;
pub mod journal_region;
pub mod journal_retained;
pub mod names;
pub mod namespace;
pub mod naming;
pub mod ownership;
pub mod path_append;
pub mod path_clone_create;
pub mod path_clone_insert;
pub mod path_clone_replace;
pub mod path_clone_splice;
pub mod path_collapse;
pub mod path_contiguous_append;
pub mod path_contiguous_clone_append;
pub mod path_contiguous_clone_create;
pub mod path_contiguous_clone_replace;
pub mod path_contiguous_create;
pub mod path_contiguous_defrag;
pub mod path_contiguous_insert;
pub mod path_contiguous_replace;
pub mod path_copy_range;
pub mod path_create;
pub mod path_directory;
pub mod path_directory_moved;
pub mod path_directory_plus;
pub mod path_directory_rename_overwrite;
pub mod path_exchange;
pub mod path_file_extents;
pub mod path_file_read;
pub mod path_file_write;
pub mod path_grow;
pub mod path_hard_link;
pub mod path_insert;
pub mod path_lookup;
pub mod path_metadata;
pub mod path_resolution;
pub mod records;
pub mod recovery;
pub mod recovery_projection;
pub mod region;
pub mod soundness;
pub mod step;
pub mod symlink;
pub mod transaction;
pub mod truncate_tx;
pub mod update;
