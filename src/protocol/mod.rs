pub mod bytepacket;
pub mod header;
pub mod packet;
pub mod question;
pub mod record;
