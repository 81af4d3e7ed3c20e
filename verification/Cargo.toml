[package]
name = "alioth"
version = "0.1.0"
edition = "2021"
publish = false

[dependencies]
anyhow = "=1.0.104"
bitflags = "=2.13.2"
drm = "=0.14.1"
drm-fourcc = "=2.2.0"
smithay = { version = "=0.7.0", default-features = false, features = ["backend_drm", "backend_egl", "backend_gbm", "backend_libinput", "backend_session_libseat", "backend_udev", "backend_winit", "desktop", "renderer_gl", "renderer_multi", "wayland_frontend"] }
smithay-drm-extras = "=0.1.0"
thiserror = "=1.0.69"
tracing = "=0.1.44"
tracing-subscriber = "=0.3.23"
xcursor = "=0.3.11"
