//! Where the fixtures of the tests are.
use vstd::prelude::*;

verus! {

/// The path of a file of a fixture, below the root of the project.
pub fn fixture_path(root: &str, fixture: &str, file: &str) -> (r: String)
    ensures
        r@ == root@ + "/tests/fixtures/"@ + fixture@ + "/"@ + file@,
{
    let mut r = root.to_owned();
    r.append("/tests/fixtures/");
    r.append(fixture);
    r.append("/");
    r.append(file);
    r
}

} // verus!
