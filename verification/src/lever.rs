pub mod custom_settings;
