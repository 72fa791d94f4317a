[package]
name = "im_switch"
version = "0.1.0"
edition = "2021"
publish = false

[dependencies]
gtk = "*"
gdk = "*"
gtk-sys = "*"
