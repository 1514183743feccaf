//! Reconstruction of bumps-racing results from the data files of a legacy
//! CD-ROM.
//!
//! The text files of the disc are obfuscated line by line ([`decode`]). Once
//! decoded, the club directory ([`colleges`]) names the crews and the year
//! files ([`year`]) give the number of racing days of each year. The race
//! records ([`rw2`]) say for each crew when it raced and where its positions
//! lie in the raw store ([`raw`]). [`results`] joins these into the history of
//! every crew ([`crew`]), [`entries`] lays the histories out flat, one entry
//! per day, and [`query`] answers for one crew and a range of years.
//!
//! The library reads no file: it takes the contents of the files and gives
//! values back.

pub mod colleges;
pub mod competition;
pub mod crew;
pub mod decode;
pub mod entries;
pub mod query;
pub mod raw;
pub mod results;
pub mod rw2;
pub mod text;
pub mod year;
