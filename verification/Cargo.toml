[package]
name = "s21_decimal"
version = "0.1.0"
edition = "2021"
publish = false
