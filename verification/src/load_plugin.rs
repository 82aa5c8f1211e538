use vstd::prelude::*;

verus! {

/// The character of the standard base64 alphabet for a value below 64:
/// `A`-`Z`, `a`-`z`, `0`-`9`, `+`, `/`.
pub open spec fn base64_digit(v: int) -> char {
    if v < 26 {
        (65 + v) as char
    } else if v < 52 {
        (97 + v - 26) as char
    } else if v < 62 {
        (48 + v - 52) as char
    } else if v == 62 {
        '+'
    } else {
        '/'
    }
}

/// The standard base64 text of the bytes: each three bytes give four
/// characters of six bits each; a last one or two bytes give two or three
/// characters, padded with `=` to four.
pub open spec fn base64_of(d: Seq<u8>) -> Seq<char>
    decreases d.len(),
{
    if d.len() == 0 {
        Seq::empty()
    } else if d.len() == 1 {
        let a = d[0] as int;
        seq![base64_digit(a / 4), base64_digit((a % 4) * 16), '=', '=']
    } else if d.len() == 2 {
        let a = d[0] as int;
        let b = d[1] as int;
        seq![base64_digit(a / 4), base64_digit((a % 4) * 16 + b / 16), base64_digit((b % 16) * 4), '=']
    } else {
        let a = d[0] as int;
        let b = d[1] as int;
        let c = d[2] as int;
        seq![
            base64_digit(a / 4),
            base64_digit((a % 4) * 16 + b / 16),
            base64_digit((b % 16) * 4 + c / 64),
            base64_digit(c % 64),
        ] + base64_of(d.skip(3))
    }
}

/// Calls `base64::encode`, which encodes with the standard alphabet and
/// `=` padding; the contract states that encoding.
#[verifier::external_body]
#[allow(deprecated)]
fn base64_text(data: &[u8]) -> (r: String)
    ensures
        r@ == base64_of(data@),
{
    base64::encode(data)
}

/// A compiled procedure as the graph database's plugin endpoint takes it.
pub struct PluginData {
    pub name: String,
    pub code_base64: String,
    pub description: String,
    pub read_only: bool,
    pub code_type: String,
}

/// The upload of the `age_10` shared-object procedure whose code is
/// `contents`: read-only, its code in base64.
pub fn plugin_data(contents: &[u8]) -> (r: PluginData)
    ensures
        r.name@ == "age_10"@,
        r.code_base64@ == base64_of(contents@),
        r.description@ == "Custom Page Rank Procedure"@,
        r.read_only,
        r.code_type@ == "so"@,
{
    PluginData {
        name: "age_10".to_owned(),
        code_base64: base64_text(contents),
        description: "Custom Page Rank Procedure".to_owned(),
        read_only: true,
        code_type: "so".to_owned(),
    }
}

} // verus!
