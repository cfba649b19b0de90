[package]
name = "voxel_world"
version = "0.1.0"
edition = "2021"
publish = false

[dependencies]
glium = "0.27"
nalgebra-glm = "0.8"
image = "0.23"
rand = "0.7"
specs = "0.16"
tobj = "2"
obj = "0.10"
