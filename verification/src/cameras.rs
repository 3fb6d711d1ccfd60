pub mod fpscam;
