[package]
name = "rkb2040_lib"
version = "0.1.0"
edition = "2021"
publish = false

[dependencies]
fugit = "=0.3.9"
usbd-human-interface-device = "=0.6.1"
usb-device = "=0.3.2"
rp2040-hal = "=0.10.2"
embedded-hal = "=1.0.0"
cortex-m = "=0.7.10"
pio-uart = "=0.3.0"
