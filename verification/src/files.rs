use vstd::prelude::*;

verus! {

/// The numbers of `s` are in ascending order.
pub open spec fn ascending(s: Seq<u64>) -> bool {
    forall|i: int, j: int| 0 <= i < j < s.len() ==> s[i] <= s[j]
}

/// The four characters that end the name of a log file.
pub open spec fn log_suffix() -> Seq<char> {
    seq!['.', 'l', 'o', 'g']
}

pub open spec fn ends_with_log(s: Seq<char>) -> bool {
    s.len() >= 4 && s.subrange(s.len() - 4, s.len() as int) == log_suffix()
}

/// Whether a file named `name` has the extension `log`: the part after its
/// last dot is `log`, and that dot does not begin the name.
pub open spec fn has_log_extension(name: Seq<char>) -> bool {
    ends_with_log(name) && name.len() > 4
}

/// `name` with every trailing `.log` taken off.
pub open spec fn trim_log_suffixes(name: Seq<char>) -> Seq<char>
    decreases name.len(),
{
    if ends_with_log(name) {
        trim_log_suffixes(name.subrange(0, name.len() - 4))
    } else {
        name
    }
}

pub open spec fn is_digit(c: char) -> bool {
    '0' <= c <= '9'
}

/// Every character of `d` is a decimal digit.
pub open spec fn all_digits(d: Seq<char>) -> bool {
    forall|i: int| 0 <= i < d.len() ==> is_digit(#[trigger] d[i])
}

/// The number that a string of decimal digits denotes.
pub open spec fn digits_value(s: Seq<char>) -> int
    decreases s.len(),
{
    if s.len() == 0 {
        0
    } else {
        digits_value(s.drop_last()) * 10 + (s.last() as int - '0' as int)
    }
}

/// What parsing `s` as a `u64` gives: an optional `+` followed by one or more
/// decimal digits whose value fits in a `u64`, and nothing else.
pub open spec fn parsed_u64(s: Seq<char>) -> Option<u64> {
    let d = if s.len() > 0 && s[0] == '+' {
        s.drop_first()
    } else {
        s
    };
    if d.len() > 0 && all_digits(d) && digits_value(d) <= u64::MAX {
        Some(digits_value(d) as u64)
    } else {
        None
    }
}

/// The generation that a file named `name` holds the log of, if it is a log file.
pub open spec fn gen_of_name(name: Seq<char>) -> Option<u64> {
    if has_log_extension(name) {
        parsed_u64(trim_log_suffixes(name))
    } else {
        None
    }
}

/// The generations of the log files among `names`, in the order of `names`.
pub open spec fn gens_of_names(names: Seq<Seq<char>>) -> Seq<u64>
    decreases names.len(),
{
    if names.len() == 0 {
        Seq::empty()
    } else {
        let rest = gens_of_names(names.drop_last());
        match gen_of_name(names.last()) {
            Some(g) => rest.push(g),
            None => rest,
        }
    }
}

/// The decimal digits of `n`, most significant first, without leading zeros.
pub open spec fn decimal_chars(n: nat) -> Seq<char>
    decreases n,
{
    if n < 10 {
        seq![(('0' as int) + n) as char]
    } else {
        decimal_chars(n / 10).push((('0' as int) + n % 10) as char)
    }
}

/// The name of the log file of generation `gen`.
pub open spec fn log_file_name(gen: u64) -> Seq<char> {
    decimal_chars(gen as nat) + log_suffix()
}

/// What `std::path::Path::join` makes of the path `dir` and the relative path
/// `file`, as text.
pub uninterp spec fn path_join(dir: Seq<char>, file: Seq<char>) -> Seq<char>;

/// Calls `str::parse::<u64>`. Its documentation (that of `u64::from_str_radix`
/// with radix 10) accepts exactly an optional `+` followed by decimal digits
/// whose value fits, which `parsed_u64` states.
#[verifier::external_body]
fn parse_u64(s: &str) -> (r: Option<u64>)
    ensures
        r == parsed_u64(s@),
{
    s.parse::<u64>().ok()
}

/// Calls `slice::sort_unstable`: afterwards the elements are in ascending
/// order and are the same elements, each as often as before.
#[verifier::external_body]
fn sort_gens(v: &mut Vec<u64>)
    ensures
        ascending(final(v)@),
        final(v)@.to_multiset() == old(v)@.to_multiset(),
{
    v.sort_unstable();
}

/// Calls `u64::to_string` (its `Display`): the decimal digits of `n`.
#[verifier::external_body]
fn u64_to_decimal(n: u64) -> (r: String)
    ensures
        r@ == decimal_chars(n as nat),
{
    n.to_string()
}

/// Calls `std::path::Path::join` on `dir` and `file`; the text of the joined
/// path is named `path_join`. (Both arguments being text, so is the result.)
#[verifier::external_body]
fn join_path(dir: &str, file: &str) -> (r: String)
    ensures
        r@ == path_join(dir@, file@),
{
    std::path::Path::new(dir).join(file).to_string_lossy().into_owned()
}

/// Whether the first `n` characters of `s` end with `.log`.
fn log_suffix_at(s: &str, n: usize) -> (r: bool)
    requires
        n <= s@.len(),
    ensures
        r == ends_with_log(s@.take(n as int)),
{
    proof {
        assert(s@.take(n as int).len() == n);
    }
    if n < 4 {
        return false;
    }
    let r = s.get_char(n - 4) == '.' && s.get_char(n - 3) == 'l' && s.get_char(n - 2) == 'o'
        && s.get_char(n - 1) == 'g';
    proof {
        let t = s@.take(n as int).subrange(n - 4, n as int);
        if r {
            assert(t =~= log_suffix());
        } else if t == log_suffix() {
            assert(t[0] == s@[n - 4]);
            assert(t[1] == s@[n - 3]);
            assert(t[2] == s@[n - 2]);
            assert(t[3] == s@[n - 1]);
        }
    }
    r
}

/// The generation that the file named `name` holds the log of: `None` unless
/// its extension is `log` and what is left once every trailing `.log` is
/// taken off parses as a `u64`.
pub fn gen_of_file_name(name: &str) -> (r: Option<u64>)
    ensures
        r == gen_of_name(name@),
{
    let len = name.unicode_len();
    proof {
        assert(name@.take(len as int) =~= name@);
    }
    if !(len > 4 && log_suffix_at(name, len)) {
        return None;
    }
    let mut n = len;
    while log_suffix_at(name, n)
        invariant
            n <= len,
            len == name@.len(),
            trim_log_suffixes(name@) == trim_log_suffixes(name@.take(n as int)),
        decreases n,
    {
        proof {
            assert(name@.take(n as int).subrange(0, n - 4) =~= name@.take(n - 4));
        }
        n = n - 4;
    }
    let stem = name.substring_char(0, n);
    proof {
        assert(stem@ =~= name@.take(n as int));
    }
    parse_u64(stem)
}

/// The names of files with their text.
pub open spec fn names_view(names: Seq<String>) -> Seq<Seq<char>> {
    names.map_values(|s: String| s@)
}

/// The generations of the log files among the files named `names`, in
/// ascending order (a generation whose log file has two names comes twice).
pub fn get_gen_list(names: &Vec<String>) -> (r: Vec<u64>)
    ensures
        ascending(r@),
        r@.to_multiset() == gens_of_names(names_view(names@)).to_multiset(),
        forall|g: u64|
            #[trigger] r@.to_multiset().count(g) == names_view(names@).filter(
                |n: Seq<char>| gen_of_name(n) == Some(g),
            ).len(),
{
    let ghost nv = names_view(names@);
    let mut gens: Vec<u64> = Vec::new();
    let mut i: usize = 0;
    while i < names.len()
        invariant
            i <= names@.len(),
            nv == names_view(names@),
            gens@ == gens_of_names(nv.take(i as int)),
        decreases names@.len() - i,
    {
        proof {
            assert(nv.take(i + 1).drop_last() =~= nv.take(i as int));
            assert(nv[i as int] == names@[i as int]@);
        }
        match gen_of_file_name(names[i].as_str()) {
            Some(g) => gens.push(g),
            None => {},
        }
        i = i + 1;
    }
    proof {
        assert(nv.take(i as int) =~= nv);
    }
    sort_gens(&mut gens);
    proof {
        assert forall|g: u64|
            #[trigger] gens@.to_multiset().count(g) == nv.filter(
                |n: Seq<char>| gen_of_name(n) == Some(g),
            ).len() by {
            law_gen_list_counts(nv, g);
        }
    }
    gens
}

/// The generations listed for a set of file names: each generation comes
/// exactly as often as there are names whose log it is, whatever the order
/// of the names.
pub proof fn law_gen_list_counts(names: Seq<Seq<char>>, g: u64)
    ensures
        gens_of_names(names).to_multiset().count(g) == names.filter(
            |n: Seq<char>| gen_of_name(n) == Some(g),
        ).len(),
    decreases names.len(),
{
    broadcast use vstd::seq_lib::group_to_multiset_ensures;

    let pred = |n: Seq<char>| gen_of_name(n) == Some(g);
    if names.len() == 0 {
        assert(gens_of_names(names) =~= Seq::<u64>::empty());
        reveal(Seq::filter);
        assert(names.filter(pred) =~= Seq::<Seq<char>>::empty());
    } else {
        assert(names =~= names.drop_last().push(names.last()));
        names.drop_last().lemma_filter_push(names.last(), pred);
        law_gen_list_counts(names.drop_last(), g);
        let rest = gens_of_names(names.drop_last());
        assert(names.filter(pred) == (if pred(names.last()) {
            names.drop_last().filter(pred).push(names.last())
        } else {
            names.drop_last().filter(pred)
        }));
        match gen_of_name(names.last()) {
            Some(h) => {
                assert(gens_of_names(names) == rest.push(h));
                assert(rest.push(h).to_multiset() =~= rest.to_multiset().insert(h));
            },
            None => {
                assert(gens_of_names(names) == rest);
            },
        }
    }
}

/// The path of the log file of generation `gen` in the directory `dir`.
pub fn log_path(dir: &str, gen: u64) -> (r: String)
    ensures
        r@ == path_join(dir@, log_file_name(gen)),
{
    let mut name = u64_to_decimal(gen);
    name.append(".log");
    proof {
        reveal_strlit(".log");
        assert(".log"@ =~= log_suffix());
    }
    join_path(dir, name.as_str())
}

} // verus!
