//! The wire protocol: a self-describing binary form for every protocol value.
//! `wire` holds the mathematical description of the byte format, `encode` the
//! serializers, and `decode` the parsers; each parser is proved to accept
//! exactly the encodings the matching serializer produces.
pub mod decode;
pub mod encode;
pub mod wire;
