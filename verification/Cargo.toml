[package]
name = "webgpu_hal"
version = "0.1.0"
edition = "2021"
publish = false

[dependencies]
risc0-core = "*"
anyhow = "*"
bytemuck = "*"
js-sys = "*"
wasm-bindgen = "*"
wasm-bindgen-futures = "*"
wasm-bindgen-rayon = "*"
web-sys = { version = "*", features = ["console", "GpuBuffer", "GpuDevice", "GpuQueue", "GpuCommandEncoder", "GpuCommandBuffer", "GpuBufferDescriptor", "WorkerGlobalScope", "WorkerNavigator"] }
