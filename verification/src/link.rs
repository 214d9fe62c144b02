//! The interface list, read from the output of `ip -br link`.
use vstd::prelude::*;
use crate::text::{
    char_vec, is_token, law_words_are_tokens, lemma_line_len_append, lemma_line_len_bound,
    lemma_words_push_ws, line_len, line_ranges, lines, pieces, range_eq, strip_cr,
    range_starts_with, range_string, ranges_within, starts_with, string_views, word_ranges, words,
};

verus! {

/// One row of the interface list.
#[derive(Clone, Debug)]
pub struct Iface {
    pub name: String,
    pub up: bool,
    pub wireless: bool,
}

/// The mathematical value of an [`Iface`].
pub struct IfaceView {
    pub name: Seq<char>,
    pub up: bool,
    pub wireless: bool,
}

impl View for Iface {
    type V = IfaceView;

    open spec fn view(&self) -> IfaceView {
        IfaceView { name: self.name@, up: self.up, wireless: self.wireless }
    }
}

pub open spec fn iface_views(v: Seq<Iface>) -> Seq<IfaceView> {
    v.map_values(|i: Iface| i@)
}

/// What `str::to_uppercase` gives for a text (Unicode case mapping).
pub uninterp spec fn spec_to_uppercase(s: Seq<char>) -> Seq<char>;

/// Calls `str::to_uppercase`. Its result is named by `spec_to_uppercase`,
/// a function of the text alone; nothing more is claimed of it.
#[verifier::external_body]
fn to_uppercase(s: &str) -> (r: String)
    ensures
        r@ == spec_to_uppercase(s@),
{
    s.to_uppercase()
}

/// An upper-cased operational state that counts as up.
pub open spec fn up_state(upper: Seq<char>) -> bool {
    upper == "UP"@ || upper == "UNKNOWN"@
}

/// Whether an upper-cased operational state counts as up.
pub fn state_is_up(upper: &str) -> (r: bool)
    ensures
        r == up_state(upper@),
{
    let v = char_vec(upper);
    assert(v@.subrange(0, v@.len() as int) =~= v@);
    range_eq(&v, 0, v.len(), "UP") || range_eq(&v, 0, v.len(), "UNKNOWN")
}

/// The name prefixes that mark an interface as wireless.
pub open spec fn has_wireless_prefix(name: Seq<char>) -> bool {
    ||| starts_with(name, "wl"@)
    ||| starts_with(name, "wlan"@)
    ||| starts_with(name, "wifi"@)
    ||| starts_with(name, "ath"@)
    ||| starts_with(name, "ra"@)
    ||| starts_with(name, "wlp"@)
    ||| starts_with(name, "wlx"@)
}

/// The prefixes `wlan`, `wlp` and `wlx` add nothing to `wl`.
pub proof fn law_long_prefixes_add_nothing(name: Seq<char>)
    ensures
        has_wireless_prefix(name) == (starts_with(name, "wl"@) || starts_with(name, "wifi"@)
            || starts_with(name, "ath"@) || starts_with(name, "ra"@)),
{
    reveal_strlit("wl");
    reveal_strlit("wlan");
    reveal_strlit("wlp");
    reveal_strlit("wlx");
    assert forall|p: Seq<char>|
        p.len() >= 2 && p[0] == 'w' && p[1] == 'l' && #[trigger] starts_with(name, p) implies starts_with(
        name,
        "wl"@,
    ) by {
        assert(name.take(2) =~= p.take(2));
        assert(p.take(2) =~= "wl"@);
    }
    if starts_with(name, "wlan"@) {
        assert(starts_with(name, "wlan"@));
    }
}

/// The two sysfs entries whose presence marks `name` as wireless:
/// `/sys/class/net/<name>/wireless` and `/sys/class/net/<name>/phy80211`.
pub fn sysfs_wireless_paths(name: &str) -> (r: (String, String))
    ensures
        r.0@ == "/sys/class/net/"@ + name@ + "/wireless"@,
        r.1@ == "/sys/class/net/"@ + name@ + "/phy80211"@,
{
    let mut a = String::from_str("/sys/class/net/");
    a.append(name);
    let mut b = String::from_str("/sys/class/net/");
    b.append(name);
    a.append("/wireless");
    b.append("/phy80211");
    (a, b)
}

/// Whether an interface is wireless: its sysfs entries say so
/// (`in_sysfs`), or its name has a wireless prefix.
pub fn is_wireless(name: &str, in_sysfs: bool) -> (r: bool)
    ensures
        r == (in_sysfs || has_wireless_prefix(name@)),
{
    let v = char_vec(name);
    let n = v.len();
    assert(v@.subrange(0, n as int) =~= v@);
    in_sysfs || range_starts_with(&v, 0, n, "wl") || range_starts_with(&v, 0, n, "wlan")
        || range_starts_with(&v, 0, n, "wifi") || range_starts_with(&v, 0, n, "ath")
        || range_starts_with(&v, 0, n, "ra") || range_starts_with(&v, 0, n, "wlp")
        || range_starts_with(&v, 0, n, "wlx")
}

/// The interface that a line of `ip -br link` describes: its first word is
/// the name, its second the state; a line of fewer words describes none.
pub open spec fn iface_of(l: Seq<char>, sysfs: Seq<Seq<char>>) -> Option<IfaceView> {
    let p = words(l);
    if p.len() < 2 {
        None
    } else {
        Some(
            IfaceView {
                name: p[0],
                up: up_state(spec_to_uppercase(p[1])),
                wireless: sysfs.contains(p[0]) || has_wireless_prefix(p[0]),
            },
        )
    }
}

/// The interfaces that the lines describe, in order.
pub open spec fn ifaces_of(ls: Seq<Seq<char>>, sysfs: Seq<Seq<char>>) -> Seq<IfaceView>
    decreases ls.len(),
{
    if ls.len() == 0 {
        seq![]
    } else {
        ifaces_of(ls.drop_last(), sysfs) + match iface_of(ls.last(), sysfs) {
            Some(i) => seq![i],
            None => seq![],
        }
    }
}

/// Every listed interface comes from its own line, and its name is a single
/// word: non-empty and without whitespace.
pub proof fn law_iface_names_are_words(ls: Seq<Seq<char>>, sysfs: Seq<Seq<char>>)
    ensures
        ifaces_of(ls, sysfs).len() <= ls.len(),
        forall|i: int|
            0 <= i < ifaces_of(ls, sysfs).len() ==> is_token(#[trigger] ifaces_of(ls, sysfs)[i].name),
    decreases ls.len(),
{
    if ls.len() > 0 {
        law_iface_names_are_words(ls.drop_last(), sysfs);
        law_words_are_tokens(ls.last());
        let prev = ifaces_of(ls.drop_last(), sysfs);
        let all = ifaces_of(ls, sysfs);
        assert forall|i: int| 0 <= i < all.len() implies is_token(#[trigger] all[i].name) by {
            if i < prev.len() {
                assert(all[i] == prev[i]);
            } else {
                assert(all[i].name == words(ls.last())[0]);
            }
        }
    }
}

proof fn lemma_ifaces_of_concat(x: Seq<Seq<char>>, y: Seq<Seq<char>>, sysfs: Seq<Seq<char>>)
    ensures
        ifaces_of(x + y, sysfs) == ifaces_of(x, sysfs) + ifaces_of(y, sysfs),
    decreases y.len(),
{
    if y.len() == 0 {
        assert(x + y =~= x);
        assert(ifaces_of(x, sysfs) + ifaces_of(y, sysfs) =~= ifaces_of(x, sysfs));
    } else {
        assert((x + y).drop_last() =~= x + y.drop_last());
        assert((x + y).last() == y.last());
        lemma_ifaces_of_concat(x, y.drop_last(), sysfs);
        let tail = match iface_of(y.last(), sysfs) {
            Some(i) => seq![i],
            None => seq![],
        };
        assert(ifaces_of(x, sysfs) + ifaces_of(y.drop_last(), sysfs) + tail =~= ifaces_of(
            x,
            sysfs,
        ) + (ifaces_of(y.drop_last(), sysfs) + tail));
    }
}

/// Two outputs of `ip -br link` joined by a line feed list the interfaces
/// of the first and then those of the second.
pub proof fn law_joined_outputs(a: Seq<char>, b: Seq<char>, sysfs: Seq<Seq<char>>)
    ensures
        ifaces_of(lines(a + "\n"@ + b), sysfs) == ifaces_of(lines(a), sysfs) + ifaces_of(
            lines(b),
            sysfs,
        ),
    decreases a.len(),
{
    reveal_strlit("\n");
    let nl = "\n"@;
    assert(nl =~= seq!['\n']);
    let j = a + nl + b;
    assert(j =~= a + (nl + b));
    lemma_line_len_append(a, nl + b);
    lemma_line_len_bound(a);
    let k = line_len(a);
    if k < a.len() {
        let rest = a.skip(k + 1 as int);
        assert(j.take(k as int) =~= a.take(k as int));
        assert(j.skip(k + 1 as int) =~= rest + nl + b);
        assert(lines(j) == seq![strip_cr(a.take(k as int))] + lines(rest + nl + b));
        assert(lines(a) == seq![strip_cr(a.take(k as int))] + lines(rest));
        law_joined_outputs(rest, b, sysfs);
        let first = seq![strip_cr(a.take(k as int))];
        lemma_ifaces_of_concat(first, lines(rest + nl + b), sysfs);
        lemma_ifaces_of_concat(first, lines(rest), sysfs);
        assert(ifaces_of(first, sysfs) + (ifaces_of(lines(rest), sysfs) + ifaces_of(
            lines(b),
            sysfs,
        )) =~= ifaces_of(first, sysfs) + ifaces_of(lines(rest), sysfs) + ifaces_of(
            lines(b),
            sysfs,
        ));
    } else {
        assert(line_len(nl + b) == 0);
        assert(j.take(a.len() as int) =~= a);
        assert(j.skip(a.len() + 1 as int) =~= b);
        assert(lines(j) == seq![strip_cr(a)] + lines(b));
        let first = seq![strip_cr(a)];
        lemma_ifaces_of_concat(first, lines(b), sysfs);
        assert(first.drop_last() =~= Seq::<Seq<char>>::empty());
        if a.len() > 0 && a.last() == '\r' {
            assert(a.drop_last().push(a.last()) =~= a);
            lemma_words_push_ws(a.drop_last(), a.last());
        }
        assert(words(strip_cr(a)) == words(a));
        assert(iface_of(strip_cr(a), sysfs) == iface_of(a, sysfs));
        if a.len() == 0 {
            assert(words(a) =~= Seq::<Seq<char>>::empty());
            assert(lines(a) =~= Seq::<Seq<char>>::empty());
            assert(strip_cr(a) =~= a);
            assert(first.last() == a);
            assert(iface_of(a, sysfs) is None);
            assert(ifaces_of(first.drop_last(), sysfs) == Seq::<IfaceView>::empty());
            assert(ifaces_of(first, sysfs) =~= Seq::<IfaceView>::empty());
            assert(ifaces_of(lines(a), sysfs) + ifaces_of(lines(b), sysfs) =~= ifaces_of(
                lines(b),
                sysfs,
            ));
        } else {
            assert(lines(a) == seq![a]);
            assert(seq![a].drop_last() =~= Seq::<Seq<char>>::empty());
        }
    }
}

/// A line of at least two words lists one interface after those before it:
/// named by its first word, up exactly when its upper-cased second word is
/// `UP` or `UNKNOWN`, wireless exactly when sysfs says so or the name begins
/// with `wl`, `wifi`, `ath` or `ra`.
pub proof fn law_line_lists_one_iface(ls: Seq<Seq<char>>, l: Seq<char>, sysfs: Seq<Seq<char>>)
    requires
        words(l).len() >= 2,
    ensures
        ifaces_of(ls.push(l), sysfs) == ifaces_of(ls, sysfs).push(
            (IfaceView {
                name: words(l)[0],
                up: spec_to_uppercase(words(l)[1]) == "UP"@ || spec_to_uppercase(words(l)[1])
                    == "UNKNOWN"@,
                wireless: sysfs.contains(words(l)[0]) || starts_with(words(l)[0], "wl"@)
                    || starts_with(words(l)[0], "wifi"@) || starts_with(words(l)[0], "ath"@)
                    || starts_with(words(l)[0], "ra"@),
            }),
        ),
{
    law_long_prefixes_add_nothing(words(l)[0]);
    assert(ls.push(l).last() == l);
    assert(ls.push(l).drop_last() =~= ls);
    let i = iface_of(l, sysfs)->0;
    assert(ifaces_of(ls, sysfs) + seq![i] =~= ifaces_of(ls, sysfs).push(i));
}

/// A line of fewer than two words lists no interface.
pub proof fn law_short_line_lists_nothing(ls: Seq<Seq<char>>, l: Seq<char>, sysfs: Seq<Seq<char>>)
    requires
        words(l).len() < 2,
    ensures
        ifaces_of(ls.push(l), sysfs) == ifaces_of(ls, sysfs),
{
    assert(ls.push(l).last() == l);
    assert(ls.push(l).drop_last() =~= ls);
    assert(ifaces_of(ls, sysfs) + Seq::<IfaceView>::empty() =~= ifaces_of(ls, sysfs));
}

/// Whether `name` is one of `list`.
fn contains_name(list: &Vec<String>, name: &String) -> (r: bool)
    ensures
        r == string_views(list@).contains(name@),
{
    let mut k: usize = 0;
    while k < list.len()
        invariant
            0 <= k <= list@.len(),
            forall|j: int| 0 <= j < k ==> list@[j]@ != name@,
        decreases list@.len() - k,
    {
        if list[k] == *name {
            assert(string_views(list@)[k as int] == name@);
            return true;
        }
        k = k + 1;
    }
    assert forall|j: int| 0 <= j < string_views(list@).len() implies string_views(list@)[j]
        != name@ by {
        assert(string_views(list@)[j] == list@[j]@);
    }
    false
}

/// The interfaces that `ip -br link` lists; `sysfs_wireless` names the
/// interfaces whose sysfs entries mark them as wireless.
pub fn load_ifaces(raw: &str, sysfs_wireless: &Vec<String>) -> (r: Vec<Iface>)
    ensures
        iface_views(r@) == ifaces_of(lines(raw@), string_views(sysfs_wireless@)),
{
    let v = char_vec(raw);
    let lr = line_ranges(&v);
    let ghost ls = lines(v@);
    let ghost sys = string_views(sysfs_wireless@);
    let mut out: Vec<Iface> = Vec::new();
    let mut i: usize = 0;
    assert(ls.take(0) =~= Seq::<Seq<char>>::empty());
    assert(iface_views(out@) =~= Seq::<IfaceView>::empty());
    while i < lr.len()
        invariant
            v@ == raw@,
            ls == lines(v@),
            sys == string_views(sysfs_wireless@),
            pieces(v@, lr@) == ls,
            ranges_within(lr@, 0, v@.len() as int),
            0 <= i <= lr@.len(),
            iface_views(out@) == ifaces_of(ls.take(i as int), sys),
        decreases lr@.len() - i,
    {
        let (a, b) = lr[i];
        assert(ls[i as int] == v@.subrange(a as int, b as int));
        let w = word_ranges(&v, a, b);
        let ghost prev = out@;
        if w.len() >= 2 {
            let (a0, b0) = w[0];
            let (a1, b1) = w[1];
            let name = range_string(raw, &v, a0, b0);
            let state = to_uppercase(raw.substring_char(a1, b1));
            let up = state_is_up(state.as_str());
            let in_sysfs = contains_name(sysfs_wireless, &name);
            let wireless = is_wireless(name.as_str(), in_sysfs);
            let iface = Iface { name, up, wireless };
            out.push(iface);
            assert(iface_views(out@) =~= iface_views(prev) + seq![iface@]);
        } else {
            assert(iface_views(prev) + Seq::<IfaceView>::empty() =~= iface_views(prev));
        }
        assert(ls.take(i + 1).drop_last() =~= ls.take(i as int));
        i = i + 1;
    }
    assert(ls.take(lr@.len() as int) =~= ls);
    out
}

} // verus!
