[package]
name = "typetris"
version = "0.1.0"
edition = "2021"
publish = false

[dependencies]
vector2d = "*"
rand = "0.9"
iter_tools = "*"
yew = { version = "*", features = ["csr"] }
gloo = "*"
gloo-console = "*"
gloo-timers = "*"
web-sys = { version = "*", features = ["CanvasRenderingContext2d", "HtmlCanvasElement", "CssStyleDeclaration", "Window", "DomRect", "Element", "KeyboardEvent"] }
