pub mod window;
pub mod ring;
pub mod mining;
pub mod expand;
pub mod reduce;
pub mod soap;

pub use ring::SentenceRingBuffer;
