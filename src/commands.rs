//! The configured commands and the gesture names they are bound to.
use vstd::prelude::*;

verus! {

/// A shell command run when the gesture recorded as `pattern` is recognized.
#[derive(Debug, Clone)]
pub struct GestureCommand {
    pub pattern: String,
    pub command: String,
}

pub open spec fn pattern_seq(commands: Seq<GestureCommand>) -> Seq<Seq<char>> {
    commands.map_values(|c: GestureCommand| c.pattern@)
}

/// `names` without repetitions, each kept where it first occurs.
pub open spec fn first_occurrences(names: Seq<Seq<char>>) -> Seq<Seq<char>>
    decreases names.len(),
{
    if names.len() == 0 {
        Seq::empty()
    } else {
        let prev = first_occurrences(names.drop_last());
        if names.drop_last().contains(names.last()) {
            prev
        } else {
            prev.push(names.last())
        }
    }
}

proof fn lemma_first_occurrences_contains(names: Seq<Seq<char>>, x: Seq<char>)
    ensures
        first_occurrences(names).contains(x) <==> names.contains(x),
    decreases names.len(),
{
    if names.len() > 0 {
        let init = names.drop_last();
        lemma_first_occurrences_contains(init, x);
        let prev = first_occurrences(init);
        if names.contains(x) {
            let k = choose|k: int| 0 <= k < names.len() && names[k] == x;
            if k < names.len() - 1 {
                assert(init[k] == x);
            }
        }
        if init.contains(x) {
            let k = choose|k: int| 0 <= k < init.len() && init[k] == x;
            assert(names[k] == x);
        }
        if !init.contains(names.last()) {
            assert(prev.push(names.last())[prev.len() as int] == names.last());
            if prev.push(names.last()).contains(x) {
                let k = choose|k: int|
                    0 <= k < prev.len() + 1 && #[trigger] prev.push(names.last())[k] == x;
                if k < prev.len() {
                    assert(prev[k] == x);
                }
            }
            if prev.contains(x) {
                let k = choose|k: int| 0 <= k < prev.len() && prev[k] == x;
                assert(prev.push(names.last())[k] == x);
            }
        }
    }
}

/// Index of the first command bound to the gesture `pattern`.
pub fn find_command(commands: &Vec<GestureCommand>, pattern: &str) -> (r: Option<usize>)
    ensures
        match r {
            Some(i) => {
                &&& i < commands@.len()
                &&& commands@[i as int].pattern@ == pattern@
                &&& forall|j: int| 0 <= j < i ==> (#[trigger] commands@[j]).pattern@ != pattern@
            },
            None => forall|j: int|
                0 <= j < commands@.len() ==> (#[trigger] commands@[j]).pattern@ != pattern@,
        },
{
    let mut i: usize = 0;
    while i < commands.len()
        invariant
            i <= commands@.len(),
            forall|j: int| 0 <= j < i ==> (#[trigger] commands@[j]).pattern@ != pattern@,
        decreases commands@.len() - i,
    {
        if same_text(commands[i].pattern.as_str(), pattern) {
            return Some(i);
        }
        i = i + 1;
    }
    None
}

/// Whether two strings hold the same characters.
fn same_text(a: &str, b: &str) -> (r: bool)
    ensures
        r == (a@ == b@),
{
    let n = a.unicode_len();
    if n != b.unicode_len() {
        return false;
    }
    let mut i: usize = 0;
    while i < n
        invariant
            n == a@.len(),
            n == b@.len(),
            i <= n,
            a@.take(i as int) == b@.take(i as int),
        decreases n - i,
    {
        if a.get_char(i) != b.get_char(i) {
            return false;
        }
        proof {
            assert(a@.take(i as int + 1) =~= a@.take(i as int).push(a@[i as int]));
            assert(b@.take(i as int + 1) =~= b@.take(i as int).push(b@[i as int]));
        }
        i = i + 1;
    }
    proof {
        assert(a@.take(n as int) =~= a@);
        assert(b@.take(n as int) =~= b@);
    }
    true
}

/// The gesture names that the commands use, each once, in the order in
/// which they first appear.
pub fn pattern_names(commands: &Vec<GestureCommand>) -> (r: Vec<String>)
    ensures
        r@.map_values(|s: String| s@) == first_occurrences(pattern_seq(commands@)),
{
    let ghost names = pattern_seq(commands@);
    let mut out: Vec<String> = Vec::new();
    let mut i: usize = 0;
    while i < commands.len()
        invariant
            i <= commands@.len(),
            names == pattern_seq(commands@),
            out@.map_values(|s: String| s@) == first_occurrences(names.take(i as int)),
        decreases commands@.len() - i,
    {
        let name = commands[i].pattern.as_str();
        let ghost outv = out@.map_values(|s: String| s@);
        let ghost prefix = names.take(i as int);
        let mut seen = false;
        let mut k: usize = 0;
        while k < out.len()
            invariant
                k <= out@.len(),
                outv == out@.map_values(|s: String| s@),
                seen <==> exists|j: int| 0 <= j < k && outv[j] == name@,
            decreases out@.len() - k,
        {
            if same_text(out[k].as_str(), name) {
                seen = true;
            }
            proof {
                assert(outv[k as int] == out@[k as int]@);
            }
            k = k + 1;
        }
        proof {
            lemma_first_occurrences_contains(prefix, name@);
            assert(seen <==> outv.contains(name@));
            let next = names.take(i as int + 1);
            assert(next.drop_last() =~= prefix);
            assert(next.last() == name@);
        }
        if !seen {
            let s = String::from_str(name);
            out.push(s);
            proof {
                assert(out@.map_values(|s: String| s@) =~= outv.push(name@));
            }
        }
        i = i + 1;
    }
    proof {
        assert(names.take(i as int) =~= names);
    }
    out
}

} // verus!
