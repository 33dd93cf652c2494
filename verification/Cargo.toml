[package]
name = "piecetext"
version = "0.1.0"
edition = "2021"
publish = false

[dependencies]
unicode-segmentation = "=1.13.3"
once_cell = "=1.21.4"
glutin = "0.26"
femtovg = "0.1"
msgbox = "0.6"
nfd = "0.0.4"
resource = "0.5"
sdl2 = { version = "0.34", features = ["ttf"] }
