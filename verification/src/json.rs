//! A compact JSON serializer writing to [`SerWrite`](crate::SerWrite) sinks and
//! an in-place JSON deserializer for convenience.
pub mod base64;
pub mod ser;
pub mod de;
pub mod roundtrip;
