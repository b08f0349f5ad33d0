[package]
name = "polyanya"
version = "0.1.0"
edition = "2021"
publish = false

[dependencies]
glam = "=0.30.10"
geo = "=0.33.1"
geo-offset = "=0.4.0"
geo-clipper = "=0.9.0"
spade = "=2.15.1"
bvh2d = "=0.7.0"
log = "=0.4.35"
