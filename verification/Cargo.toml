[package]
name = "starcom"
version = "0.1.0"
edition = "2021"
publish = false

[dependencies]
alacritty_terminal = "=0.26.0"
anyhow = "=1.0.104"
egui = "=0.34.3"
hmac = "=0.13.0"
log = "0.4"
polling = "=3.11.0"
raw-window-handle = "=0.6.2"
sha1 = "*"
signature = "=3.0.0"
ssh-key = { version = "=0.7.0-rc.11", features = ["alloc", "ed25519", "encryption", "p256", "rsa", "std"] }
sunset = { version = "=0.6.0", features = ["std", "rsa", "ecdsa256"] }
sunset-sftp = "=0.2.0"
wayland-backend = { version = "=0.3.17", features = ["client_system"] }
wayland-client = "=0.31.15"
winit = "=0.30.13"
zeroize = "=1.9.1"
