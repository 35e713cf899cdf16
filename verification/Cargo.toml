[package]
name = "rube_voxel"
version = "0.1.0"
edition = "2021"
publish = false

[dependencies]
bzip2 = "*"
dot_vox = "*"
glam = "*"
tobj = "*"
