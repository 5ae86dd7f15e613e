[package]
name = "extol_sprite_layer"
version = "0.1.0"
edition = "2021"
publish = false

[dependencies]
bevy = { version = "0.13", default-features = false }
ordered-float = "4"
rayon = "1"
