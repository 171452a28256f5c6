//! Small helpers of the command line: option lists and flag values.
use vstd::prelude::*;
use crate::strs::{str_eq, to_owned_string};

verus! {

/// Two optional lists: both given, the first followed by the second; else whichever is given.
pub fn merge_opt<T>(a: Option<Vec<T>>, b: Option<Vec<T>>) -> (r: Option<Vec<T>>)
    ensures
        match (a, b) {
            (Some(x), Some(y)) => r is Some && r->0@ == x@ + y@,
            (None, _) => r == b,
            (Some(_), None) => r == a,
        },
{
    match a {
        Some(mut x) => match b {
            Some(mut y) => {
                x.append(&mut y);
                Some(x)
            },
            None => Some(x),
        },
        None => b,
    }
}

/// The argument after the first occurrence of `name`, where one follows it.
pub fn flag_value(args: &[String], name: &str) -> (r: Option<String>)
    ensures
        match r {
            Some(v) => exists|i: int|
                0 <= i && i + 1 < args@.len() && #[trigger] args@[i]@ == name@ && v@ == args@[i + 1]@ && forall|j: int|
                    0 <= j < i ==> args@[j]@ != name@,
            None => forall|i: int| 0 <= i && i + 1 < args@.len() ==> #[trigger] args@[i]@ != name@,
        },
{
    let mut i: usize = 0;
    while i < args.len() && args.len() - i > 1
        invariant
            i <= args@.len(),
            forall|j: int| 0 <= j < i ==> #[trigger] args@[j]@ != name@,
        decreases args@.len() - i,
    {
        if str_eq(args[i].as_str(), name) {
            return Some(to_owned_string(args[i + 1].as_str()));
        }
        i += 1;
    }
    None
}

} // verus!
