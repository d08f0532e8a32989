[package]
name = "vdom"
version = "0.1.0"
edition = "2021"
publish = false

[dependencies]
gdk-pixbuf = "=0.8.0"
gtk = "=0.8.1"
titik = "=0.3.1"
