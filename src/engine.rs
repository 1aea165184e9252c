//! The placeholder substitution engine: fills one group's records and the
//! tournament name into a template.

use vstd::prelude::*;
use crate::record::{
    Record, pair_number, pair_of_slot, pair_slot_number, pair_value, player_number, player_value,
    slot_number,
};
use crate::text::{
    chars_of, contains, decimal, decimal_chars, is_digit, lemma_decimal_digits,
    lemma_decimal_injective, matches_at, occurs_at, push_all, replace_all, replace_chars,
    string_of,
};

verus! {

/// Why a group could not be substituted.
#[derive(Debug, PartialEq, Eq, Structural)]
pub enum SubstitutionError {
    /// The group has no records, or a keyed record with no fields at all.
    EmptyGroup,
}

/// The placeholder `>PLAYERn<`.
pub open spec fn player_token(n: nat) -> Seq<char> {
    ">PLAYER"@ + decimal(n) + "<"@
}

/// The placeholder `>Pair Nok<`.
pub open spec fn pair_token(k: nat) -> Seq<char> {
    ">Pair No"@ + decimal(k) + "<"@
}

/// The text that replaces a placeholder: the value between `>` and `<`.
pub open spec fn bracketed(v: Seq<char>) -> Seq<char> {
    ">"@ + v + "<"@
}

/// The token that stands for the tournament name.
pub open spec fn name_token() -> Seq<char> {
    "NAME"@
}

/// One row of a token table: a placeholder and the text that replaces it.
pub type Entry = (Seq<char>, Seq<char>);

/// The table rows of slot `s` of the record at `position` in group
/// `group_index`: its player placeholder where the record has a name for
/// the slot, and beside slots 1 and 3 its pair placeholder where the record
/// also has that pair label.
pub open spec fn slot_entries(r: Record, group_index: nat, position: nat, s: nat) -> Seq<Entry> {
    match player_value(r, s) {
        None => Seq::empty(),
        Some(v) => {
            let first = seq![(player_token(player_number(group_index, position, s)), bracketed(v))];
            if s == 1 || s == 3 {
                match pair_value(r, pair_of_slot(s)) {
                    Some(l) => first.push(
                        (pair_token(pair_number(group_index, position, s)), bracketed(l)),
                    ),
                    None => first,
                }
            } else {
                first
            }
        },
    }
}

/// The table rows of slots 1 to `upto` of one record.
pub open spec fn record_entries(r: Record, group_index: nat, position: nat, upto: nat) -> Seq<
    Entry,
>
    decreases upto,
{
    if upto == 0 {
        Seq::empty()
    } else {
        record_entries(r, group_index, position, (upto - 1) as nat) + slot_entries(
            r,
            group_index,
            position,
            upto,
        )
    }
}

/// The token table of the first `n` records of group `g`, four slots each.
pub open spec fn table_of(g: Seq<Record>, group_index: nat, n: nat) -> Seq<Entry>
    decreases n,
{
    if n == 0 {
        Seq::empty()
    } else {
        table_of(g, group_index, (n - 1) as nat) + record_entries(
            g[n - 1],
            group_index,
            (n - 1) as nat,
            4,
        )
    }
}

/// `s` begins with the non-empty `tok`.
pub open spec fn starts_with(s: Seq<char>, tok: Seq<char>) -> bool {
    0 < tok.len() <= s.len() && s.subrange(0, tok.len() as int) == tok
}

/// The first row, from row `j` on, whose placeholder begins `s`.
pub open spec fn first_match(s: Seq<char>, table: Seq<Entry>, j: nat) -> Option<nat>
    decreases table.len() - j,
{
    if j >= table.len() {
        None
    } else if starts_with(s, table[j as int].0) {
        Some(j)
    } else {
        first_match(s, table, j + 1)
    }
}

/// One left-to-right pass over `s`: where a placeholder of the table begins,
/// its replacement is emitted and the scan resumes after the placeholder;
/// elsewhere the character is kept. What was emitted is never scanned again.
pub open spec fn fill(s: Seq<char>, table: Seq<Entry>) -> Seq<char>
    decreases s.len(),
{
    if s.len() == 0 {
        s
    } else {
        match first_match(s, table, 0) {
            Some(j) => if 0 < table[j as int].0.len() <= s.len() {
                table[j as int].1 + fill(s.subrange(table[j as int].0.len() as int, s.len() as int), table)
            } else {
                s
            },
            None => seq![s[0]] + fill(s.subrange(1, s.len() as int), table),
        }
    }
}

/// The whole substitution of group `g` at `group_index`: every player and
/// pair placeholder of the group's table in one pass, then every `NAME`.
pub open spec fn substituted(t: Seq<char>, g: Seq<Record>, group_index: nat, name: Seq<char>) -> Seq<
    char,
> {
    replace_all(fill(t, table_of(g, group_index, g.len())), name_token(), name)
}

/// A group the engine refuses: no records, or a keyed record without fields.
pub open spec fn is_empty_group(g: Seq<Record>) -> bool {
    g.len() == 0 || exists|i: int|
        0 <= i < g.len() && (#[trigger] g[i] matches Record::Keyed { fields } && fields@.len() == 0)
}

/// A table of character buffers, viewed.
pub open spec fn table_view(tab: Seq<(Vec<char>, Vec<char>)>) -> Seq<Entry> {
    tab.map_values(|e: (Vec<char>, Vec<char>)| (e.0@, e.1@))
}

fn token(prefix: &str, n: u128) -> (r: Vec<char>)
    ensures
        r@ == prefix@ + decimal(n as nat) + "<"@,
{
    let mut t = chars_of(prefix);
    let d = decimal_chars(n);
    push_all(&mut t, &d);
    let close = chars_of("<");
    push_all(&mut t, &close);
    t
}

fn bracket(v: &Vec<char>) -> (r: Vec<char>)
    ensures
        r@ == bracketed(v@),
{
    let mut t = chars_of(">");
    push_all(&mut t, v);
    let close = chars_of("<");
    push_all(&mut t, &close);
    t
}

fn push_entry(tab: &mut Vec<(Vec<char>, Vec<char>)>, tok: Vec<char>, rep: Vec<char>)
    ensures
        table_view(final(tab)@) == table_view(old(tab)@).push((tok@, rep@)),
{
    let ghost before = tab@;
    let ghost e = (tok@, rep@);
    tab.push((tok, rep));
    assert(table_view(tab@) =~= table_view(before).push(e));
}

fn add_slot(
    tab: &mut Vec<(Vec<char>, Vec<char>)>,
    r: &Record,
    group_index: usize,
    position: usize,
    s: usize,
)
    requires
        1 <= s <= 4,
    ensures
        table_view(final(tab)@) == table_view(old(tab)@) + slot_entries(
            *r,
            group_index as nat,
            position as nat,
            s as nat,
        ),
{
    let ghost before = table_view(tab@);
    match r.player(s) {
        None => {
            assert(before + Seq::<Entry>::empty() =~= before);
        },
        Some(v) => {
            let pat = token(">PLAYER", slot_number(group_index, position, s));
            push_entry(tab, pat, bracket(&v));
            let ghost e1 = (
                player_token(player_number(group_index as nat, position as nat, s as nat)),
                bracketed(v@),
            );
            if s == 1 || s == 3 {
                let k: usize = if s == 1 {
                    1
                } else {
                    2
                };
                match r.pair(k) {
                    Some(l) => {
                        let pat2 = token(">Pair No", pair_slot_number(group_index, position, s));
                        push_entry(tab, pat2, bracket(&l));
                        assert(table_view(tab@) =~= before + seq![e1].push(
                            (
                                pair_token(
                                    pair_number(group_index as nat, position as nat, s as nat),
                                ),
                                bracketed(l@),
                            ),
                        ));
                    },
                    None => {
                        assert(table_view(tab@) =~= before + seq![e1]);
                    },
                }
            } else {
                assert(table_view(tab@) =~= before + seq![e1]);
            }
        },
    }
}

fn build_table(g: &[Record], group_index: usize) -> (tab: Vec<(Vec<char>, Vec<char>)>)
    ensures
        table_view(tab@) == table_of(g@, group_index as nat, g@.len()),
{
    let mut tab: Vec<(Vec<char>, Vec<char>)> = Vec::new();
    let mut p: usize = 0;
    assert(table_view(tab@) =~= Seq::<Entry>::empty());
    while p < g.len()
        invariant
            p <= g@.len(),
            table_view(tab@) == table_of(g@, group_index as nat, p as nat),
        decreases g@.len() - p,
    {
        let rec = &g[p];
        let mut s: usize = 1;
        while s <= 4
            invariant
                1 <= s <= 5,
                p < g@.len(),
                *rec == g@[p as int],
                table_view(tab@) == table_of(g@, group_index as nat, p as nat) + record_entries(
                    *rec,
                    group_index as nat,
                    p as nat,
                    (s - 1) as nat,
                ),
            decreases 5 - s,
        {
            let ghost before = table_view(tab@);
            add_slot(&mut tab, rec, group_index, p, s);
            assert(table_view(tab@) =~= table_of(g@, group_index as nat, p as nat)
                + record_entries(*rec, group_index as nat, p as nat, s as nat));
            s = s + 1;
        }
        p = p + 1;
    }
    tab
}

fn find_entry(s: &Vec<char>, i: usize, tab: &Vec<(Vec<char>, Vec<char>)>) -> (r: Option<usize>)
    requires
        i < s@.len(),
    ensures
        match r {
            Some(j) => j < tab@.len() && first_match(
                s@.subrange(i as int, s@.len() as int),
                table_view(tab@),
                0,
            ) == Some(j as nat),
            None => first_match(s@.subrange(i as int, s@.len() as int), table_view(tab@), 0) is None,
        },
{
    let ghost rest = s@.subrange(i as int, s@.len() as int);
    let ghost tv = table_view(tab@);
    let n = s.len();
    let mut j: usize = 0;
    while j < tab.len()
        invariant
            j <= tab@.len(),
            n == s@.len(),
            i < n,
            rest == s@.subrange(i as int, n as int),
            tv == table_view(tab@),
            first_match(rest, tv, 0) == first_match(rest, tv, j as nat),
        decreases tab@.len() - j,
    {
        let tok = &tab[j].0;
        assert(tv[j as int].0 == tok@);
        let m = tok.len();
        if m > 0 && m <= n - i && matches_at(s, tok, i) {
            assert(rest.subrange(0, m as int) =~= s@.subrange(i as int, i + m));
            return Some(j);
        }
        if m > 0 && m <= n - i {
            assert(rest.subrange(0, m as int) =~= s@.subrange(i as int, i + m));
        }
        j = j + 1;
    }
    None
}

proof fn lemma_first_match_starts(s: Seq<char>, table: Seq<Entry>, k: nat)
    ensures
        first_match(s, table, k) matches Some(j) ==> j < table.len() && starts_with(
            s,
            table[j as int].0,
        ),
    decreases table.len() - k,
{
    if k < table.len() && !starts_with(s, table[k as int].0) {
        lemma_first_match_starts(s, table, k + 1);
    }
}

fn fill_chars(s: &Vec<char>, tab: &Vec<(Vec<char>, Vec<char>)>) -> (r: Vec<char>)
    ensures
        r@ == fill(s@, table_view(tab@)),
{
    let ghost tv = table_view(tab@);
    let n = s.len();
    let mut out: Vec<char> = Vec::new();
    let mut i: usize = 0;
    assert(out@ + s@.subrange(0, n as int) =~= s@);
    while i < n
        invariant
            i <= n,
            n == s@.len(),
            tv == table_view(tab@),
            out@ + fill(s@.subrange(i as int, n as int), tv) == fill(s@, tv),
        decreases n - i,
    {
        let ghost t = s@.subrange(i as int, n as int);
        match find_entry(s, i, tab) {
            Some(j) => {
                let m = tab[j].0.len();
                assert(tv[j as int] == (tab@[j as int].0@, tab@[j as int].1@));
                proof {
                    lemma_first_match_starts(t, tv, 0);
                }
                assert(t.subrange(m as int, t.len() as int) =~= s@.subrange(i + m, n as int));
                let ghost before = out@;
                push_all(&mut out, &tab[j].1);
                assert(before + (tv[j as int].1 + fill(s@.subrange(i + m, n as int), tv)) =~= out@
                    + fill(s@.subrange(i + m, n as int), tv));
                i = i + m;
            },
            None => {
                let ghost u = s@.subrange(i + 1, n as int);
                assert(t.subrange(1, t.len() as int) =~= u);
                assert(out@.push(s@[i as int]) + fill(u, tv) =~= out@ + (seq![s@[i as int]] + fill(
                    u,
                    tv,
                )));
                out.push(s[i]);
                i = i + 1;
            },
        }
    }
    assert(out@ + s@.subrange(n as int, n as int) =~= out@);
    out
}

fn keyed_without_fields(g: &[Record]) -> (r: bool)
    ensures
        r == (exists|i: int|
            0 <= i < g@.len() && (#[trigger] g@[i] matches Record::Keyed { fields } && fields@.len() == 0)),
{
    let mut i: usize = 0;
    while i < g.len()
        invariant
            i <= g@.len(),
            forall|j: int|
                0 <= j < i ==> !(#[trigger] g@[j] matches Record::Keyed { fields } && fields@.len() == 0),
        decreases g@.len() - i,
    {
        match &g[i] {
            Record::Keyed { fields } => {
                if fields.len() == 0 {
                    return true;
                }
            },
            Record::Positional { .. } => {},
        }
        i = i + 1;
    }
    false
}

/// Fills the template `svg_str` for the group at `group_index`. The record
/// at position `p` is record `4 * group_index + p` of the roster, and owns
/// the placeholders `>PLAYER{4r+1}<` to `>PLAYER{4r+4}<` and
/// `>Pair No{2r+1}<`, `>Pair No{2r+2}<` (for its roster index `r`). In one
/// pass every such placeholder with a value becomes `>value<` (a pair label
/// only beside the name of slot 1 or 3); nothing inserted is scanned again,
/// and placeholders without a value are left as they are. Last, every
/// `NAME` becomes the tournament name.
pub fn replace_svg(
    svg_str: &str,
    player_groups: &[Record],
    tournament_name: &str,
    group_index: usize,
) -> (r: Result<String, SubstitutionError>)
    ensures
        is_empty_group(player_groups@) <==> r is Err,
        r matches Ok(s) ==> s@ == substituted(
            svg_str@,
            player_groups@,
            group_index as nat,
            tournament_name@,
        ),
        r matches Err(e) ==> e == SubstitutionError::EmptyGroup,
{
    if player_groups.len() == 0 || keyed_without_fields(player_groups) {
        return Err(SubstitutionError::EmptyGroup);
    }
    let tab = build_table(player_groups, group_index);
    let t = chars_of(svg_str);
    let filled = fill_chars(&t, &tab);
    let name_pat = chars_of("NAME");
    proof {
        reveal_strlit("NAME");
    }
    let name = chars_of(tournament_name);
    let done = replace_chars(&filled, &name_pat, &name);
    Ok(string_of(&done))
}

proof fn lemma_no_match(s: Seq<char>, table: Seq<Entry>, j: nat)
    requires
        forall|k: int| 0 <= k < table.len() ==> !occurs_at(s, #[trigger] table[k].0, 0),
    ensures
        first_match(s, table, j) is None,
    decreases table.len() - j,
{
    if j < table.len() {
        assert(!occurs_at(s, table[j as int].0, 0));
        lemma_no_match(s, table, j + 1);
    }
}

/// A text in which no placeholder of the table occurs passes through the
/// pass unchanged.
pub proof fn lemma_fill_absent(s: Seq<char>, table: Seq<Entry>)
    requires
        forall|k: int| 0 <= k < table.len() ==> !contains(s, #[trigger] table[k].0),
    ensures
        fill(s, table) == s,
    decreases s.len(),
{
    if s.len() > 0 {
        assert forall|k: int| 0 <= k < table.len() implies !occurs_at(
            s,
            #[trigger] table[k].0,
            0,
        ) by {
            assert(!contains(s, table[k].0));
        }
        lemma_no_match(s, table, 0);
        let t = s.subrange(1, s.len() as int);
        assert forall|k: int| 0 <= k < table.len() implies !contains(t, #[trigger] table[k].0) by {
            assert(!contains(s, table[k].0));
            if contains(t, table[k].0) {
                let i = choose|i: int| occurs_at(t, table[k].0, i);
                assert(s.subrange(i + 1, i + 1 + table[k].0.len()) =~= t.subrange(
                    i,
                    i + table[k].0.len(),
                ));
                assert(occurs_at(s, table[k].0, i + 1));
            }
        }
        lemma_fill_absent(t, table);
        assert(seq![s[0]] + t =~= s);
    }
}

/// A template in which none of the group's placeholders that have a value
/// occurs comes back unchanged, but for the tournament name put in place of
/// each `NAME`.
pub proof fn lemma_unmatched_template_unchanged(
    t: Seq<char>,
    g: Seq<Record>,
    group_index: nat,
    name: Seq<char>,
)
    requires
        forall|k: int|
            0 <= k < table_of(g, group_index, g.len()).len() ==> !contains(
                t,
                #[trigger] table_of(g, group_index, g.len())[k].0,
            ),
    ensures
        substituted(t, g, group_index, name) == replace_all(t, name_token(), name),
{
    lemma_fill_absent(t, table_of(g, group_index, g.len()));
}

proof fn lemma_token_chars(n: nat)
    ensures
        player_token(n).len() == 8 + decimal(n).len(),
        player_token(n)[0] == '>',
        player_token(n).last() == '<',
        forall|k: int| 1 <= k < player_token(n).len() ==> #[trigger] player_token(n)[k] != '>',
        forall|k: int| 0 <= k < player_token(n).len() - 1 ==> #[trigger] player_token(n)[k] != '<',
        forall|k: int| 7 <= k < player_token(n).len() - 1 ==> is_digit(#[trigger] player_token(n)[k]),
        player_token(n).subrange(7, player_token(n).len() - 1) == decimal(n),
{
    reveal_strlit(">PLAYER");
    reveal_strlit("<");
    lemma_decimal_digits(n);
    let t = player_token(n);
    assert(t.subrange(7, t.len() - 1) =~= decimal(n));
    assert forall|k: int| 7 <= k < t.len() - 1 implies is_digit(#[trigger] t[k]) by {
        assert(t[k] == decimal(n)[k - 7]);
    }
    assert forall|k: int| 1 <= k < t.len() implies #[trigger] t[k] != '>' by {
        if 7 <= k < t.len() - 1 {
            assert(t[k] == decimal(n)[k - 7]);
        }
    }
    assert forall|k: int| 0 <= k < t.len() - 1 implies #[trigger] t[k] != '<' by {
        if 7 <= k < t.len() - 1 {
            assert(t[k] == decimal(n)[k - 7]);
        }
    }
}

/// The placeholder of one player number never occurs inside that of
/// another: `>PLAYER1<` is not found in `>PLAYER10<`, nor the reverse.
pub proof fn lemma_player_tokens_apart(n: nat, m: nat)
    requires
        n != m,
    ensures
        !contains(player_token(m), player_token(n)),
{
    lemma_token_chars(n);
    lemma_token_chars(m);
    let a = player_token(n);
    let b = player_token(m);
    if contains(b, a) {
        let i = choose|i: int| occurs_at(b, a, i);
        assert(b.subrange(i, i + a.len())[0] == a[0]);
        assert(i == 0);
        if a.len() == b.len() {
            assert(b.subrange(0, a.len() as int) =~= b);
            assert(a.subrange(7, a.len() - 1) == b.subrange(7, b.len() - 1));
            lemma_decimal_injective(n, m);
        } else {
            let k = a.len() - 1;
            assert(b.subrange(0, a.len() as int)[k] == a[k]);
            assert(is_digit(b[k]));
        }
    }
}

/// A pattern whose only `<` is its last character.
pub open spec fn closes_once(pat: Seq<char>) -> bool {
    pat.len() > 0 && pat.last() == '<' && forall|k: int| 0 <= k < pat.len() - 1 ==> pat[k] != '<'
}

/// Every placeholder is closed once: `>PLAYERn<` holds `<` only at its end.
pub proof fn lemma_player_token_closes_once(n: nat)
    ensures
        closes_once(player_token(n)),
{
    lemma_token_chars(n);
}

proof fn lemma_other_not_prefix(tok: Seq<char>, other: Seq<char>, rest: Seq<char>)
    requires
        closes_once(tok),
        closes_once(other),
        other != tok,
    ensures
        !starts_with(tok + rest, other),
{
    let s = tok + rest;
    if starts_with(s, other) {
        if other.len() <= tok.len() {
            assert(s.subrange(0, other.len() as int)[other.len() - 1] == tok[other.len() - 1]);
            assert(other.len() == tok.len());
            assert(tok =~= s.subrange(0, tok.len() as int));
        } else {
            assert(s.subrange(0, other.len() as int)[tok.len() - 1] == tok.last());
        }
    }
}

proof fn lemma_first_match_is(tok: Seq<char>, rest: Seq<char>, table: Seq<Entry>, i: nat, j: nat)
    requires
        i <= j < table.len(),
        table[j as int].0 == tok,
        forall|k: int| 0 <= k < table.len() ==> closes_once(#[trigger] table[k].0),
        forall|k: int| 0 <= k < j ==> #[trigger] table[k].0 != tok,
    ensures
        first_match(tok + rest, table, i) == Some(j),
    decreases j - i,
{
    let s = tok + rest;
    if i < j {
        assert(closes_once(table[i as int].0));
        assert(table[i as int].0 != tok);
        lemma_other_not_prefix(tok, table[i as int].0, rest);
        lemma_first_match_is(tok, rest, table, i + 1, j);
    } else {
        assert(closes_once(tok));
        assert(s.subrange(0, tok.len() as int) =~= tok);
    }
}

/// Where a placeholder of the table begins the text, it becomes exactly its
/// own row's replacement, and the rest of the text is filled on its own: no
/// other placeholder matches there (not `>PLAYER1<` at `>PLAYER10<`), and
/// the inserted value is never scanned again, whatever it holds.
pub proof fn lemma_fill_placeholder_first(table: Seq<Entry>, j: nat, rest: Seq<char>)
    requires
        j < table.len(),
        forall|k: int| 0 <= k < table.len() ==> closes_once(#[trigger] table[k].0),
        forall|k: int| 0 <= k < j ==> #[trigger] table[k].0 != table[j as int].0,
    ensures
        fill(table[j as int].0 + rest, table) == table[j as int].1 + fill(rest, table),
{
    let tok = table[j as int].0;
    lemma_first_match_is(tok, rest, table, 0, j);
    let s = tok + rest;
    assert(s.subrange(tok.len() as int, s.len() as int) =~= rest);
}

/// `>Pair Nok<` holds `<` only at its end.
pub proof fn lemma_pair_token_closes_once(k: nat)
    ensures
        closes_once(pair_token(k)),
{
    reveal_strlit(">Pair No");
    reveal_strlit("<");
    lemma_decimal_digits(k);
    let t = pair_token(k);
    assert forall|i: int| 0 <= i < t.len() - 1 implies t[i] != '<' by {
        if 8 <= i < t.len() - 1 {
            assert(t[i] == decimal(k)[i - 8]);
        }
    }
}

proof fn lemma_slot_entries_close(r: Record, group_index: nat, position: nat, s: nat)
    ensures
        forall|k: int|
            0 <= k < slot_entries(r, group_index, position, s).len() ==> closes_once(
                #[trigger] slot_entries(r, group_index, position, s)[k].0,
            ),
{
    lemma_player_token_closes_once(player_number(group_index, position, s));
    lemma_pair_token_closes_once(pair_number(group_index, position, s));
}

proof fn lemma_record_entries_close(r: Record, group_index: nat, position: nat, upto: nat)
    ensures
        forall|k: int|
            0 <= k < record_entries(r, group_index, position, upto).len() ==> closes_once(
                #[trigger] record_entries(r, group_index, position, upto)[k].0,
            ),
    decreases upto,
{
    if upto > 0 {
        let a = record_entries(r, group_index, position, (upto - 1) as nat);
        let b = slot_entries(r, group_index, position, upto);
        lemma_record_entries_close(r, group_index, position, (upto - 1) as nat);
        lemma_slot_entries_close(r, group_index, position, upto);
        assert forall|k: int| 0 <= k < (a + b).len() implies closes_once(#[trigger] (a + b)[k].0) by {
            if k < a.len() {
                assert((a + b)[k] == a[k]);
            } else {
                assert((a + b)[k] == b[k - a.len()]);
            }
        }
    }
}

/// Every placeholder of a group's table holds `<` only at its end.
pub proof fn lemma_table_closes_once(g: Seq<Record>, group_index: nat, n: nat)
    requires
        n <= g.len(),
    ensures
        forall|k: int|
            0 <= k < table_of(g, group_index, n).len() ==> closes_once(
                #[trigger] table_of(g, group_index, n)[k].0,
            ),
    decreases n,
{
    if n > 0 {
        let a = table_of(g, group_index, (n - 1) as nat);
        let b = record_entries(g[n - 1], group_index, (n - 1) as nat, 4);
        lemma_table_closes_once(g, group_index, (n - 1) as nat);
        lemma_record_entries_close(g[n - 1], group_index, (n - 1) as nat, 4);
        assert forall|k: int| 0 <= k < (a + b).len() implies closes_once(#[trigger] (a + b)[k].0) by {
            if k < a.len() {
                assert((a + b)[k] == a[k]);
            } else {
                assert((a + b)[k] == b[k - a.len()]);
            }
        }
    }
}

/// In the pass over a group's table, a placeholder of the table that begins
/// the text becomes its own row's replacement and the rest is filled on its
/// own: no other placeholder matches there, and the inserted value is never
/// scanned again, whatever it holds.
pub proof fn lemma_group_placeholder_replaced_once(
    g: Seq<Record>,
    group_index: nat,
    j: nat,
    rest: Seq<char>,
)
    requires
        j < table_of(g, group_index, g.len()).len(),
        forall|k: int|
            0 <= k < j ==> #[trigger] table_of(g, group_index, g.len())[k].0 != table_of(
                g,
                group_index,
                g.len(),
            )[j as int].0,
    ensures
        fill(table_of(g, group_index, g.len())[j as int].0 + rest, table_of(g, group_index, g.len()))
            == table_of(g, group_index, g.len())[j as int].1 + fill(
            rest,
            table_of(g, group_index, g.len()),
        ),
{
    lemma_table_closes_once(g, group_index, g.len());
    lemma_fill_placeholder_first(table_of(g, group_index, g.len()), j, rest);
}

proof fn lemma_player_tokens_differ(n: nat, m: nat)
    requires
        n != m,
    ensures
        player_token(n) != player_token(m),
{
    lemma_player_tokens_apart(n, m);
    let t = player_token(n);
    assert(t.subrange(0, t.len() as int) =~= t);
    assert(occurs_at(t, t, 0));
}

/// The name that slot `s` of `r` supplies.
pub open spec fn value_of(r: Record, s: nat) -> Seq<char> {
    player_value(r, s)->Some_0
}

/// The row of slot `s` of a lone record in group `group_index`.
pub open spec fn name_row(r: Record, group_index: nat, s: nat) -> Entry {
    (player_token(player_number(group_index, 0, s)), bracketed(value_of(r, s)))
}

/// A group of one record that supplies four names and no pair labels maps
/// each of its four placeholders to its own name, the placeholders being
/// pairwise distinct; and in any template, an occurrence of the placeholder
/// of slot `s` becomes exactly `>name<` of slot `s`, after which the scan
/// goes on behind it: no name lands on another slot's placeholder, none is
/// scanned again, and `>PLAYER1<` is never found inside `>PLAYER10<`.
pub proof fn lemma_four_names_fill_own_placeholders(
    r: Record,
    group_index: nat,
    s: nat,
    rest: Seq<char>,
)
    requires
        forall|k: nat| 1 <= k <= 4 ==> #[trigger] player_value(r, k) is Some,
        pair_value(r, 1) is None,
        pair_value(r, 2) is None,
        1 <= s <= 4,
    ensures
        table_of(seq![r], group_index, 1) == seq![
            name_row(r, group_index, 1),
            name_row(r, group_index, 2),
            name_row(r, group_index, 3),
            name_row(r, group_index, 4),
        ],
        forall|a: nat, b: nat|
            1 <= a <= 4 && 1 <= b <= 4 && a != b ==> player_token(player_number(group_index, 0, a))
                != player_token(player_number(group_index, 0, b)),
        fill(
            player_token(player_number(group_index, 0, s)) + rest,
            table_of(seq![r], group_index, 1),
        ) == bracketed(value_of(r, s)) + fill(rest, table_of(seq![r], group_index, 1)),
{
    let g = seq![r];
    assert(player_value(r, 1) is Some);
    assert(player_value(r, 2) is Some);
    assert(player_value(r, 3) is Some);
    assert(player_value(r, 4) is Some);
    assert(slot_entries(r, group_index, 0, 1) == seq![name_row(r, group_index, 1)]);
    assert(slot_entries(r, group_index, 0, 2) == seq![name_row(r, group_index, 2)]);
    assert(slot_entries(r, group_index, 0, 3) == seq![name_row(r, group_index, 3)]);
    assert(slot_entries(r, group_index, 0, 4) == seq![name_row(r, group_index, 4)]);
    let e1 = name_row(r, group_index, 1);
    let e2 = name_row(r, group_index, 2);
    let e3 = name_row(r, group_index, 3);
    assert(record_entries(r, group_index, 0, 0) == Seq::<Entry>::empty());
    assert(record_entries(r, group_index, 0, 1) =~= seq![e1]);
    assert(record_entries(r, group_index, 0, 2) =~= seq![e1, e2]);
    assert(record_entries(r, group_index, 0, 3) =~= seq![e1, e2, e3]);
    assert(record_entries(r, group_index, 0, 4) =~= seq![
        name_row(r, group_index, 1),
        name_row(r, group_index, 2),
        name_row(r, group_index, 3),
        name_row(r, group_index, 4),
    ]);
    assert(table_of(g, group_index, 0) == Seq::<Entry>::empty());
    assert(g[0] == r);
    assert(table_of(g, group_index, 1) =~= record_entries(r, group_index, 0, 4));
    assert forall|a: nat, b: nat|
        1 <= a <= 4 && 1 <= b <= 4 && a != b implies player_token(
        player_number(group_index, 0, a),
    ) != player_token(player_number(group_index, 0, b)) by {
        lemma_player_tokens_differ(player_number(group_index, 0, a), player_number(group_index, 0, b));
    }
    let t = table_of(g, group_index, 1);
    let j = (s - 1) as nat;
    assert forall|k: int| 0 <= k < j implies #[trigger] t[k].0 != t[j as int].0 by {
        assert(t[k] == name_row(r, group_index, (k + 1) as nat));
    }
    assert(t[j as int] == name_row(r, group_index, s));
    lemma_group_placeholder_replaced_once(g, group_index, j, rest);
}

/// Distinct slots of distinct records of the roster fill distinct
/// placeholder numbers.
pub proof fn lemma_player_numbers_distinct(g1: nat, p1: nat, s1: nat, g2: nat, p2: nat, s2: nat)
    requires
        p1 < 4,
        p2 < 4,
        1 <= s1 <= 4,
        1 <= s2 <= 4,
        g1 != g2 || p1 != p2 || s1 != s2,
    ensures
        player_number(g1, p1, s1) != player_number(g2, p2, s2),
{
    let r1 = 4 * g1 + p1;
    let r2 = 4 * g2 + p2;
    if r1 == r2 {
        if g1 < g2 {
            assert(4 * g1 + 4 <= 4 * g2);
        } else if g2 < g1 {
            assert(4 * g2 + 4 <= 4 * g1);
        }
    } else if r1 < r2 {
        assert(r1 * 4 + 4 <= r2 * 4) by (nonlinear_arith)
            requires
                r1 < r2,
        ;
    } else {
        assert(r2 * 4 + 4 <= r1 * 4) by (nonlinear_arith)
            requires
                r2 < r1,
        ;
    }
}

} // verus!
