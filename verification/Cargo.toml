[package]
name = "atlas_metrics"
version = "0.1.0"
edition = "2021"
publish = false

[dependencies]
anyhow = "=1.0.104"
chrono = "=0.4.45"
dashmap = "=6.2.1"
influxdb = { version = "=0.8.0", features = ["derive"] }
sysinfo = "=0.40.1"
thread_local = "=1.1.10"
# Used by app/ only, to run the InfluxDB requests to completion: it stands in
# for the async runtime of the wider project, which is not a dependency here.
tokio = { version = "=1.54.1", features = ["rt-multi-thread"] }
tracing = "=0.1.44"
