[package]
name = "git_pack"
version = "0.1.0"
edition = "2021"
publish = false

[dependencies]
byteorder = "1"
sha1_smol = "1"
thiserror = "1"
git-hash = "*"
