[package]
name = "zenjpegai"
version = "0.1.0"
edition = "2021"
publish = false

[dependencies]
enough = "*"
imgref = "*"
libm = "*"
rgb = "*"
whereat = "*"
zencodec = "*"
zenpixels = "*"
zenpng = "*"
