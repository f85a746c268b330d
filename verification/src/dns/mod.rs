pub mod header;
pub mod name;
pub mod packet;
pub mod question;
pub mod record;
pub mod types;

// Re-exported, for more convenient use.
pub use self::header::{DNSHeader, RECURSION_DESIRED};
pub use self::name::{DNSName, DnsName};
pub use self::packet::DNSPacket;
pub use self::question::DNSQuestion;
pub use self::record::DNSRecord;
pub use self::types::{
    BytePacketReader, DNSDecodable, DNSEncodable, DNSResult, Data, RecordClass, RecordType,
};
