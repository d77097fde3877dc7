pub mod auto_patch_config_plugin;
pub mod config_types;
