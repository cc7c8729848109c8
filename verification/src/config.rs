//! Settings taken from outside the dataset: the port to listen on and the
//! directory of the presentation files.

use vstd::prelude::*;

verus! {

/// The port to listen on where no setting names one.
pub const DEFAULT_PORT: u16 = 8080;

/// The integer that a TOML document holds at its top level under `key`:
/// `None` where the text is no TOML document, where it has no such key, or
/// where the value under the key is no integer.
pub uninterp spec fn toml_integer(content: Seq<char>, key: Seq<char>) -> Option<i64>;

/// Reads `content` as a TOML document with `toml::from_str`, into a
/// `toml::Table`, and looks `key` up in that table with its `get`. The
/// result is the integer found there; a text that `toml` rejects, a key
/// that the table lacks and a value of another TOML type all give `None`.
/// The parser bounds the depth to which a document may nest, so it comes
/// back on every text. The contract claims no more than that the result
/// depends on the two texts alone.
#[verifier::external_body]
fn read_toml_integer(content: &str, key: &str) -> (r: Option<i64>)
    ensures
        r == toml_integer(content@, key@),
{
    match toml::from_str::<toml::Table>(content) {
        Ok(table) => match table.get(key) {
            Some(toml::Value::Integer(i)) => Some(*i),
            _ => None,
        },
        Err(_) => None,
    }
}

/// The port that a setting names: the low sixteen bits of the number, or
/// the default port where there is no setting.
pub open spec fn port_of(setting: Option<i64>) -> u16 {
    match setting {
        Some(port) => port as u16,
        None => DEFAULT_PORT,
    }
}

/// Works out the port that a setting names.
pub fn port_from(setting: Option<i64>) -> (port: u16)
    ensures
        port == port_of(setting),
{
    match setting {
        Some(port) => #[verifier::truncate]
        (port as u16),
        None => DEFAULT_PORT,
    }
}

/// The setting that a configuration gives for the port: the integer under
/// `port`, where the configuration could be had.
pub open spec fn port_setting(config: Option<Seq<char>>) -> Option<i64> {
    match config {
        Some(text) => toml_integer(text, "port"@),
        None => None,
    }
}

/// Works out the port to listen on from the text of the configuration
/// file; `config` is `None` where there is no such file, or where it
/// cannot be read.
pub fn get_default_port(config: Option<&str>) -> (port: u16)
    ensures
        port == port_of(
            port_setting(
                match config {
                    Some(text) => Some(text@),
                    None => None,
                },
            ),
        ),
{
    match config {
        Some(text) => port_from(read_toml_integer(text, "port")),
        None => DEFAULT_PORT,
    }
}

/// Names the directory of the presentation files: the configured one, or
/// the usual place where none is configured.
pub fn get_data_dir(configured: Option<&str>) -> (dir: String)
    ensures
        dir@ == match configured {
            Some(path) => path@,
            None => "/usr/share/varf"@,
        },
{
    match configured {
        Some(path) => String::from_str(path),
        None => String::from_str("/usr/share/varf"),
    }
}

} // verus!
