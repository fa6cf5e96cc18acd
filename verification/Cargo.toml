[package]
name = "telemetry"
version = "0.1.0"
edition = "2021"
publish = false

[dependencies]
anyhow = "1"
env_logger = "*"
fe2o3-amqp-types = "*"
http = "1"
log = "0.4"
opentelemetry = "*"
opentelemetry-appender-log = "*"
opentelemetry-otlp = { version = "*", default-features = false, features = ["grpc-tonic", "gzip-tonic", "trace", "metrics", "logs"] }
opentelemetry_sdk = "*"
opentelemetry-semantic-conventions = { version = "*", features = ["semconv_experimental"] }
sentry = { version = "*", default-features = false, features = ["panic"] }
sentry-log = "*"
tonic = "*"
tower-layer = "0.3"
tower-service = "0.3"
