//! A MessagePack serializer writing to [`SerWrite`](crate::SerWrite) sinks and a
//! deserializer for convenience.
pub mod magick;
pub mod ser;
pub mod de;
pub mod roundtrip;
