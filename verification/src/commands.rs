pub mod init;
