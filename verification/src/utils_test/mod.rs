pub mod gen_utils;
