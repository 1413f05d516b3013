[package]
name = "co_managed"
version = "0.1.0"
edition = "2021"
publish = false

[dependencies]
may = "*"
rcu_cell = "*"
rcu_list = "*"
