[package]
name = "key_pipeline"
version = "0.1.0"
edition = "2021"
publish = false

[dependencies]
keyberon = "0.1"
embedded-hal = "0.2"
generic-array = "0.13"
usb-device = "0.2"
stm32f1xx-hal = { version = "0.6", features = ["stm32f103", "rt", "stm32-usbd"] }
cortex-m = "0.6"
cortex-m-rtic = "0.5"
panic-semihosting = "0.5"
