[package]
name = "shapeproc"
version = "0.1.0"
edition = "2021"
publish = false

[dependencies]
hex = "*"
lapp = "*"
shapefile = "*"
bin_buffer = "*"
xml-rs = "*"
