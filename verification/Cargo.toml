[package]
name = "glue"
version = "0.1.0"
edition = "2021"
publish = false

[dependencies]
bytes = "1.12.1"
image = { version = "0.25.10", default-features = false, features = ["png", "jpeg"] }
anyhow = "1.0.104"
crossbeam = "0.8.5"
log = "0.4.35"
log4rs = { version = "1.4.0", default-features = false, features = ["console_appender", "rolling_file_appender", "compound_policy", "size_trigger", "fixed_window_roller", "pattern_encoder"] }
rand = "0.8.5"
bytemuck = "1.25.2"
lazy_static = "1.5.1"
ctrlc = "3.5.2"
glow = "0.16.0"
winit = { version = "0.30.13", default-features = false, features = ["rwh_06", "x11"] }
rsmpeg = "0.17.0"
