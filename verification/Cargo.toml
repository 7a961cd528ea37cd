[package]
name = "aoc2022"
version = "0.1.0"
edition = "2021"

[dependencies]
regex = "=1.13.1"
range_union_find = "=0.4.4"
