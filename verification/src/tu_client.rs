use vstd::prelude::*;
use crate::text::{split_by, split_on, views};

verus! {

/// The error for a request that is not `Person.name,Movie.title`.
pub open spec fn request_format_message() -> Seq<char> {
    "parse request error, format should be `Person.name,Movie.title`"@
}

/// Splits a plugin request `person_name,movie_title` into its two parts;
/// a request without exactly one `,` is refused.
pub fn parse_req(req: &str) -> (r: Result<(String, String), String>)
    ensures
        split_on(req@, ',').len() == 2 ==> (r matches Ok(p) && p.0@ == split_on(req@, ',')[0]
            && p.1@ == split_on(req@, ',')[1]),
        split_on(req@, ',').len() != 2 ==> (r matches Err(e) && e@ == request_format_message()),
{
    let v = split_by(req, ',');
    if v.len() != 2 {
        return Err("parse request error, format should be `Person.name,Movie.title`".to_owned());
    }
    assert(views(v@)[0] == v@[0]@);
    assert(views(v@)[1] == v@[1]@);
    Ok((v[0].clone(), v[1].clone()))
}

} // verus!
