//! MARC bibliographic records: an in-memory model of leader, control
//! fields, and data fields, with codecs for the ISO 2709 binary layout,
//! the line-oriented "breaker" text form, and MARCXML.

pub mod record;
pub mod text;
pub mod breaker;
pub mod binary;
pub mod xml;

pub use record::Controlfield;
pub use record::Field;
pub use record::Indicator;
pub use record::Leader;
pub use record::MarcError;
pub use record::Record;
pub use record::Subfield;
pub use record::Tag;
