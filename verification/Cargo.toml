[package]
name = "handwrite_sim"
version = "0.1.0"
edition = "2021"
publish = false

[dependencies]
image = { version = "*", default-features = false, features = ["png", "jpeg", "webp"] }
pdfium-render = "*"
quick-xml = "*"
zip = { version = "*", default-features = false, features = ["deflate"] }
rand = "*"
rand_distr = "*"
serde = { version = "1", features = ["derive"] }
serde_json = "1"
thiserror = "*"
printpdf = "*"
lopdf = "*"
fast_image_resize = "*"
reqwest = { version = "*", default-features = false, features = ["blocking", "json", "rustls-tls"] }
