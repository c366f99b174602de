//! The saved server list: one `name|address` line per server.
use vstd::prelude::*;
use vstd::string::StringExecFns;
use crate::text::{chars_of, push_char, string_of};

verus! {

/// `l` without one trailing carriage return.
pub open spec fn strip_cr(l: Seq<char>) -> Seq<char> {
    if l.len() > 0 && l.last() == '\r' {
        l.drop_last()
    } else {
        l
    }
}

/// The lines of `s` from `i` on, `cur` holding the part of the current line
/// read so far: a line ends at `\n`, where one `\r` before it goes too; a
/// last line without `\n` keeps all its characters, and an empty one is no
/// line.
pub open spec fn lines_scan(s: Seq<char>, i: int, cur: Seq<char>) -> Seq<Seq<char>>
    decreases s.len() - i,
{
    if i < 0 || i >= s.len() {
        if cur.len() == 0 {
            Seq::empty()
        } else {
            seq![cur]
        }
    } else if s[i] == '\n' {
        seq![strip_cr(cur)] + lines_scan(s, i + 1, Seq::empty())
    } else {
        lines_scan(s, i + 1, cur.push(s[i]))
    }
}

/// The lines of `s`.
pub open spec fn text_lines(s: Seq<char>) -> Seq<Seq<char>> {
    lines_scan(s, 0, Seq::empty())
}

/// The first position at or after `i` where `c` stands in `s`.
pub open spec fn first_from(s: Seq<char>, c: char, i: int) -> Option<int>
    decreases s.len() - i,
{
    if i < 0 || i >= s.len() {
        None
    } else if s[i] == c {
        Some(i)
    } else {
        first_from(s, c, i + 1)
    }
}

/// A line split at its first `|` into name and address; `None` without one.
pub open spec fn split_bar(l: Seq<char>) -> Option<(Seq<char>, Seq<char>)> {
    match first_from(l, '|', 0) {
        Some(k) => Some((l.subrange(0, k), l.subrange(k + 1, l.len() as int))),
        None => None,
    }
}

/// The servers that `lines` name, in order; lines without `|` name none.
pub open spec fn servers_of(lines: Seq<Seq<char>>) -> Seq<(Seq<char>, Seq<char>)>
    decreases lines.len(),
{
    if lines.len() == 0 {
        Seq::empty()
    } else {
        let head = match split_bar(lines[0]) {
            Some(p) => seq![p],
            None => Seq::empty(),
        };
        head + servers_of(lines.drop_first())
    }
}

/// The line of one server.
pub open spec fn server_line(p: (Seq<char>, Seq<char>)) -> Seq<char> {
    p.0 + seq!['|'] + p.1
}

/// The text of a server list: its lines joined by `\n`, with none after the
/// last.
pub open spec fn servers_text_spec(v: Seq<(Seq<char>, Seq<char>)>) -> Seq<char>
    decreases v.len(),
{
    if v.len() == 0 {
        Seq::empty()
    } else if v.len() == 1 {
        server_line(v[0])
    } else {
        servers_text_spec(v.drop_last()) + seq!['\n'] + server_line(v.last())
    }
}

/// The list as name and address views.
pub open spec fn pairs_view(v: Seq<(String, String)>) -> Seq<(Seq<char>, Seq<char>)> {
    v.map_values(|p: (String, String)| (p.0@, p.1@))
}

proof fn lemma_servers_of_one(line: Seq<char>)
    ensures
        servers_of(seq![line]) == match split_bar(line) {
            Some(p) => seq![p],
            None => Seq::<(Seq<char>, Seq<char>)>::empty(),
        },
{
    assert(seq![line].drop_first() =~= Seq::<Seq<char>>::empty());
    assert(servers_of(Seq::<Seq<char>>::empty()) == Seq::<(Seq<char>, Seq<char>)>::empty());
    let head = match split_bar(line) {
        Some(p) => seq![p],
        None => Seq::<(Seq<char>, Seq<char>)>::empty(),
    };
    assert(head + Seq::<(Seq<char>, Seq<char>)>::empty() =~= head);
}

proof fn lemma_servers_of_append(a: Seq<Seq<char>>, b: Seq<Seq<char>>)
    ensures
        servers_of(a + b) == servers_of(a) + servers_of(b),
    decreases a.len(),
{
    if a.len() == 0 {
        assert(a + b =~= b);
    } else {
        lemma_servers_of_append(a.drop_first(), b);
        assert((a + b).drop_first() =~= a.drop_first() + b);
        assert((a + b)[0] == a[0]);
        let head = match split_bar(a[0]) {
            Some(p) => seq![p],
            None => Seq::<(Seq<char>, Seq<char>)>::empty(),
        };
        assert(head + (servers_of(a.drop_first()) + servers_of(b)) =~= (head + servers_of(
            a.drop_first(),
        )) + servers_of(b));
    }
}

/// A line split at `|`: name and address, when it holds one.
fn split_line(line: &Vec<char>) -> (r: Option<(String, String)>)
    ensures
        match split_bar(line@) {
            Some(p) => r matches Some(q) && q.0@ == p.0 && q.1@ == p.1,
            None => r is None,
        },
{
    let mut k: usize = 0;
    while k < line.len()
        invariant
            k <= line@.len(),
            first_from(line@, '|', 0) == first_from(line@, '|', k as int),
        decreases line.len() - k,
    {
        if line[k] == '|' {
            let name = string_of(&line.as_slice()[0..k]);
            let addr = string_of(&line.as_slice()[k + 1..line.len()]);
            return Some((name, addr));
        }
        k += 1;
    }
    None
}

/// Reads a saved server list: a server for each line that holds `|`, its
/// name before the first `|` and its address after it.
pub fn parse_servers(text: &str) -> (r: Vec<(String, String)>)
    ensures
        pairs_view(r@) == servers_of(text_lines(text@)),
{
    let s = chars_of(text);
    let ghost total = servers_of(text_lines(text@));
    let mut out: Vec<(String, String)> = Vec::new();
    let mut cur: Vec<char> = Vec::new();
    let mut i: usize = 0;
    while i < s.len()
        invariant
            s@ == text@,
            total == servers_of(text_lines(text@)),
            i <= s@.len(),
            pairs_view(out@) + servers_of(lines_scan(s@, i as int, cur@)) == total,
        decreases s.len() - i,
    {
        let c = s[i];
        let ghost old_cur_view = cur@;
        if c == '\n' {
            let ghost rest = lines_scan(s@, i + 1, Seq::empty());
            let ghost out0 = pairs_view(out@);
            if cur.len() > 0 && cur[cur.len() - 1] == '\r' {
                cur.pop();
            }
            let ghost line = cur@;
            let ghost head = servers_of(seq![line]);
            proof {
                lemma_servers_of_one(line);
                assert(lines_scan(s@, i as int, old_cur_view) == seq![line] + rest);
                lemma_servers_of_append(seq![line], rest);
                assert((seq![line]).drop_first() =~= Seq::<Seq<char>>::empty());
                assert(out0 + (head + servers_of(rest)) == total);
            }
            match split_line(&cur) {
                Some(p) => {
                    proof {
                        assert(pairs_view(out@.push(p)) =~= out0 + head);
                    }
                    out.push(p);
                },
                None => {
                    proof {
                        assert(pairs_view(out@) =~= out0 + head);
                    }
                },
            }
            proof {
                assert(pairs_view(out@) + servers_of(rest) =~= out0 + (head + servers_of(rest)));
            }
            cur = Vec::new();
        } else {
            cur.push(c);
        }
        i += 1;
    }
    if cur.len() > 0 {
        let ghost line = cur@;
        assert(lines_scan(s@, i as int, cur@) == seq![line]);
        proof { lemma_servers_of_one(line); }
        match split_line(&cur) {
            Some(p) => {
                proof {
                    assert(pairs_view(out@.push(p)) =~= pairs_view(out@) + seq![(p.0@, p.1@)]);
                    assert(seq![line].drop_first() =~= Seq::<Seq<char>>::empty());
                }
                out.push(p);
            },
            None => {
                proof {
                    assert(seq![line].drop_first() =~= Seq::<Seq<char>>::empty());
                    assert(pairs_view(out@) + Seq::<(Seq<char>, Seq<char>)>::empty() =~= pairs_view(out@));
                }
            },
        }
    } else {
        proof {
            assert(pairs_view(out@) + Seq::<(Seq<char>, Seq<char>)>::empty() =~= pairs_view(out@));
        }
    }
    out
}

/// Writes a server list as text: `name|address` lines joined by `\n`.
pub fn servers_text(v: &[(String, String)]) -> (r: String)
    ensures
        r@ == servers_text_spec(pairs_view(v@)),
{
    let mut out = String::new();
    let mut i: usize = 0;
    while i < v.len()
        invariant
            i <= v@.len(),
            out@ == servers_text_spec(pairs_view(v@.subrange(0, i as int))),
        decreases v.len() - i,
    {
        let ghost before = out@;
        if i > 0 {
            push_char(&mut out, '\n');
        }
        out.append(v[i].0.as_str());
        push_char(&mut out, '|');
        out.append(v[i].1.as_str());
        proof {
            let pv = pairs_view(v@.subrange(0, i + 1));
            assert(pv.drop_last() =~= pairs_view(v@.subrange(0, i as int)));
            assert(pv.last() == (v@[i as int].0@, v@[i as int].1@));
            if i == 0 {
                assert(out@ =~= server_line(pv[0]));
            } else {
                assert(out@ =~= before + seq!['\n'] + server_line(pv.last()));
            }
        }
        i += 1;
    }
    proof {
        assert(v@.subrange(0, v@.len() as int) =~= v@);
    }
    out
}

/// `s` holds `c`.
pub open spec fn holds(s: Seq<char>, c: char) -> bool {
    exists|k: int| 0 <= k < s.len() && s[k] == c
}

proof fn lemma_scan_plain(s: Seq<char>, i: int, j: int, cur: Seq<char>)
    requires
        0 <= i <= j <= s.len(),
        forall|k: int| i <= k < j ==> s[k] != '\n',
    ensures
        lines_scan(s, i, cur) == lines_scan(s, j, cur + s.subrange(i, j)),
    decreases j - i,
{
    if i < j {
        lemma_scan_plain(s, i + 1, j, cur.push(s[i]));
        assert(cur.push(s[i]) + s.subrange(i + 1, j) =~= cur + s.subrange(i, j));
    } else {
        assert(cur + s.subrange(i, j) =~= cur);
    }
}

proof fn lemma_scan_shift(a: Seq<char>, b: Seq<char>, k: int, cur: Seq<char>)
    requires
        0 <= k,
    ensures
        lines_scan(a + b, a.len() + k, cur) == lines_scan(b, k, cur),
    decreases b.len() - k,
{
    if k < b.len() {
        assert((a + b)[a.len() + k] == b[k]);
        if b[k] == '\n' {
            lemma_scan_shift(a, b, k + 1, Seq::empty());
        } else {
            lemma_scan_shift(a, b, k + 1, cur.push(b[k]));
        }
    }
}

proof fn lemma_first_bar(l: Seq<char>, i: int, m: int)
    requires
        0 <= i <= m < l.len(),
        l[m] == '|',
        forall|k: int| i <= k < m ==> l[k] != '|',
    ensures
        first_from(l, '|', i) == Some(m),
    decreases m - i,
{
    if i < m {
        lemma_first_bar(l, i + 1, m);
    }
}

proof fn lemma_line_parts(p: (Seq<char>, Seq<char>))
    requires
        !holds(p.0, '|'),
    ensures
        split_bar(server_line(p)) == Some(p),
{
    let l = server_line(p);
    assert forall|k: int| 0 <= k < p.0.len() implies l[k] != '|' by {
        assert(l[k] == p.0[k]);
    }
    lemma_first_bar(l, 0, p.0.len() as int);
    assert(l.subrange(0, p.0.len() as int) =~= p.0);
    assert(l.subrange(p.0.len() as int + 1, l.len() as int) =~= p.1);
}

proof fn lemma_text_front(v: Seq<(Seq<char>, Seq<char>)>)
    requires
        v.len() >= 2,
    ensures
        servers_text_spec(v) == server_line(v[0]) + seq!['\n'] + servers_text_spec(v.drop_first()),
    decreases v.len(),
{
    if v.len() > 2 {
        lemma_text_front(v.drop_last());
        assert(v.drop_last().drop_first() =~= v.drop_first().drop_last());
        assert(v.drop_first().last() == v.last());
        assert(v.drop_last()[0] == v[0]);
        let x = servers_text_spec(v.drop_first().drop_last());
        let a = server_line(v[0]);
        let z = server_line(v.last());
        assert(servers_text_spec(v.drop_first()) == x + seq!['\n'] + z);
        assert(servers_text_spec(v) == (a + seq!['\n'] + x) + seq!['\n'] + z);
        assert((a + seq!['\n'] + x) + seq!['\n'] + z =~= a + seq!['\n'] + (x + seq!['\n'] + z));
    } else {
        assert(v.drop_last().len() == 1);
        assert(v.drop_first().len() == 1);
        assert(v.drop_first()[0] == v.last());
        assert(v.drop_last()[0] == v[0]);
        assert(servers_text_spec(v.drop_last()) == server_line(v[0]));
        assert(servers_text_spec(v.drop_first()) == server_line(v.last()));
    }
}

proof fn lemma_line_plain(p: (Seq<char>, Seq<char>))
    requires
        !holds(p.0, '\n'),
        !holds(p.1, '\n'),
    ensures
        forall|k: int| 0 <= k < server_line(p).len() ==> server_line(p)[k] != '\n',
{
    let l = server_line(p);
    assert forall|k: int| 0 <= k < l.len() implies l[k] != '\n' by {
        if k < p.0.len() {
            assert(l[k] == p.0[k]);
        } else if k > p.0.len() {
            assert(l[k] == p.1[k - p.0.len() - 1]);
        }
    }
}

/// Reading back a written server list gives the list again, when no name
/// holds `|` and no name or address holds a line break, and no address but
/// the last ends with a carriage return.
pub proof fn servers_roundtrip(v: Seq<(Seq<char>, Seq<char>)>)
    requires
        forall|i: int| 0 <= i < v.len() ==> !holds(#[trigger] v[i].0, '|') && !holds(v[i].0, '\n')
            && !holds(v[i].1, '\n'),
        forall|i: int| 0 <= i < v.len() - 1 ==> !(#[trigger] v[i].1.len() > 0 && v[i].1.last() == '\r'),
    ensures
        servers_of(text_lines(servers_text_spec(v))) == v,
    decreases v.len(),
{
    if v.len() == 0 {
        assert(servers_text_spec(v) =~= Seq::<char>::empty());
        assert(servers_of(Seq::<Seq<char>>::empty()) =~= v);
    } else {
        let p = v[0];
        let l = server_line(p);
        lemma_line_plain(p);
        lemma_line_parts(p);
        lemma_servers_of_one(l);
        if v.len() == 1 {
            lemma_scan_plain(l, 0, l.len() as int, Seq::empty());
            assert(Seq::<char>::empty() + l.subrange(0, l.len() as int) =~= l);
            assert(text_lines(l) == seq![l]);
            assert(seq![p] =~= v);
        } else {
            let rest = v.drop_first();
            servers_roundtrip(rest);
            lemma_text_front(v);
            let t = servers_text_spec(rest);
            let s = l + seq!['\n'] + t;
            assert(forall|k: int| 0 <= k < l.len() ==> s[k] == l[k]);
            lemma_scan_plain(s, 0, l.len() as int, Seq::empty());
            assert(Seq::<char>::empty() + s.subrange(0, l.len() as int) =~= l);
            assert(s[l.len() as int] == '\n');
            assert(strip_cr(l) == l) by {
                if p.1.len() > 0 {
                    assert(l.last() == p.1.last());
                } else {
                    assert(l.last() == '|');
                }
            }
            assert(s =~= (l + seq!['\n']) + t);
            lemma_scan_shift(l + seq!['\n'], t, 0, Seq::empty());
            assert(text_lines(s) == seq![l] + text_lines(t));
            lemma_servers_of_append(seq![l], text_lines(t));
            assert(seq![p] + rest =~= v);
        }
    }
}

} // verus!
