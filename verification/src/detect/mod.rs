pub mod types;
pub mod common;
pub mod creational;
pub mod behavioral;
pub mod structural;
pub mod dotnet;
