[package]
name = "totp_pam"
version = "0.1.0"
edition = "2021"
publish = false

[dependencies]
base32 = "=0.5.1"
base64 = "=0.23.1"
getrandom = "=0.4.3"
hmac = "=0.13.0"
qrcodegen-image = "=1.5.2"
sha1 = "=0.11.0"
sha2 = "=0.11.0"
shellexpand = "=3.1.2"
structopt = "=0.3.26"
text_io = "=0.1.13"
whoami = "=2.1.3"
