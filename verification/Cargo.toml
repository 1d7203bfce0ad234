[package]
name = "translation_table"
version = "0.1.0"
edition = "2021"
publish = false

[dependencies]
csv = "=1.4.0"
bevy_device_lang = "=0.6.1"
spreadsheet-ods = "=1.0.4"
bevy_ecs = "=0.16.1"
