pub mod text;
pub mod i18n;
pub mod num;
pub mod finder;
pub mod source;
pub mod packer;
pub mod bot;
pub mod settings;
