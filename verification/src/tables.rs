//! Filling the CJK variant tables from the JSON alias and Japanese tables.
use vstd::prelude::*;
use crate::cjk::CjkTables;
use crate::json::{
    field, first_char, first_char_of, first_chars, first_chars_of, json_parse, object_field,
    spec_json_parse, str_first, JsonValue,
};

verus! {

/// The group of one entry of a group table: the key's first char, then the first chars of
/// the listed strings.
pub open spec fn entry_group(e: (String, JsonValue)) -> Seq<char> {
    (match first_char(e.0@) {
        Some(c) => seq![c],
        None => Seq::empty(),
    }) + first_chars(e.1)
}

/// The groups of a group table, one per entry.
pub open spec fn object_groups(es: Seq<(String, JsonValue)>) -> Seq<Seq<char>>
    decreases es.len(),
{
    if es.len() == 0 {
        Seq::empty()
    } else {
        object_groups(es.drop_last()).push(entry_group(es.last()))
    }
}

/// The groups of the `table_tw` entries: the key's first char and the first char of its
/// string, where both exist.
pub open spec fn pair_groups(es: Seq<(String, JsonValue)>) -> Seq<Seq<char>>
    decreases es.len(),
{
    if es.len() == 0 {
        Seq::empty()
    } else {
        pair_groups(es.drop_last()) + match (first_char(es.last().0@), str_first(es.last().1)) {
            (Some(a), Some(b)) => seq![seq![a, b]],
            _ => Seq::empty(),
        }
    }
}

/// The `table_cn` rows: the key's first char with the first chars of its strings.
pub open spec fn star_rows(es: Seq<(String, JsonValue)>) -> Seq<(char, Seq<char>)>
    decreases es.len(),
{
    if es.len() == 0 {
        Seq::empty()
    } else {
        star_rows(es.drop_last()) + match first_char(es.last().0@) {
            Some(f) => seq![(f, first_chars(es.last().1))],
            None => Seq::empty(),
        }
    }
}

/// All alias groups of the alias document: those of `table_plus`, `table_jp`,
/// `table_jp_core` and `table_plus_core`, then the `table_tw` pairs.
pub open spec fn alias_groups(v: JsonValue) -> Seq<Seq<char>> {
    object_groups(object_field(v, "table_plus"@)) + object_groups(object_field(v, "table_jp"@))
        + object_groups(object_field(v, "table_jp_core"@)) + object_groups(
        object_field(v, "table_plus_core"@),
    ) + pair_groups(object_field(v, "table_tw"@))
}

/// What the groups add to the aliases of `c`: every group holding `c`.
pub open spec fn group_gain(gs: Seq<Seq<char>>, c: char) -> Set<char>
    decreases gs.len(),
{
    if gs.len() == 0 {
        Set::empty()
    } else {
        group_gain(gs.drop_last(), c).union(
            if gs.last().contains(c) {
                gs.last().to_set()
            } else {
                Set::empty()
            },
        )
    }
}

/// What the `table_cn` rows add to the aliases of `c`: for a row of `c`, `c` itself and
/// its listed chars.
pub open spec fn star_gain(ss: Seq<(char, Seq<char>)>, c: char) -> Set<char>
    decreases ss.len(),
{
    if ss.len() == 0 {
        Set::empty()
    } else {
        star_gain(ss.drop_last(), c).union(
            if ss.last().0 == c {
                set![c].union(ss.last().1.to_set())
            } else {
                Set::empty()
            },
        )
    }
}

/// What the alias document `text` adds to the aliases of `c`; nothing when it does not
/// parse.
pub open spec fn alias_json_gain(text: Seq<char>, c: char) -> Set<char> {
    match spec_json_parse(text) {
        Some(v) => group_gain(alias_groups(v), c).union(star_gain(star_rows(object_field(v, "table_cn"@)), c)),
        None => Set::empty(),
    }
}

pub proof fn lemma_group_gain_add(a: Seq<Seq<char>>, b: Seq<Seq<char>>, c: char)
    ensures
        group_gain(a + b, c) == group_gain(a, c).union(group_gain(b, c)),
    decreases b.len(),
{
    if b.len() == 0 {
        assert(a + b =~= a);
        assert(group_gain(a, c).union(Set::empty()) =~= group_gain(a, c));
    } else {
        lemma_group_gain_add(a, b.drop_last(), c);
        assert((a + b).drop_last() =~= a + b.drop_last());
        assert((a + b).last() == b.last());
        let x = if b.last().contains(c) {
            b.last().to_set()
        } else {
            Set::empty()
        };
        assert(group_gain(a, c).union(group_gain(b.drop_last(), c)).union(x) =~= group_gain(a, c).union(
            group_gain(b.drop_last(), c).union(x),
        ));
    }
}

/// A row of exactly three strings.
pub open spec fn triple_row(v: JsonValue) -> Option<(Seq<char>, Seq<char>, Seq<char>)> {
    match v {
        JsonValue::Array(xs) => if xs@.len() == 3 {
            match (xs@[0], xs@[1], xs@[2]) {
                (JsonValue::Str(a), JsonValue::Str(b), JsonValue::Str(c)) => Some((a@, b@, c@)),
                _ => None,
            }
        } else {
            None
        },
        _ => None,
    }
}

/// The rows when every item is a row of three strings.
pub open spec fn triple_rows(items: Seq<JsonValue>) -> Option<Seq<(Seq<char>, Seq<char>, Seq<char>)>>
    decreases items.len(),
{
    if items.len() == 0 {
        Some(Seq::empty())
    } else {
        match (triple_rows(items.drop_last()), triple_row(items.last())) {
            (Some(p), Some(t)) => Some(p.push(t)),
            _ => None,
        }
    }
}

/// The rows of the Japanese table (`Vec<[String; 3]>`); none when the text is not such
/// a document.
pub open spec fn jp_table_rows(text: Seq<char>) -> Seq<(Seq<char>, Seq<char>, Seq<char>)> {
    match spec_json_parse(text) {
        Some(JsonValue::Array(items)) => match triple_rows(items@) {
            Some(rs) => rs,
            None => Seq::empty(),
        },
        _ => Seq::empty(),
    }
}

/// First chars (Japanese, traditional, simplified) of the rows whose three strings are
/// all non-empty.
pub open spec fn jp_firsts(rows: Seq<(Seq<char>, Seq<char>, Seq<char>)>) -> Seq<(char, char, char)>
    decreases rows.len(),
{
    if rows.len() == 0 {
        Seq::empty()
    } else {
        let r = rows.last();
        jp_firsts(rows.drop_last()) + if r.0.len() > 0 && r.1.len() > 0 && r.2.len() > 0 {
            seq![(r.0[0], r.1[0], r.2[0])]
        } else {
            Seq::empty()
        }
    }
}

/// `m` with each pair inserted in turn (a later pair wins).
pub open spec fn insert_pairs(m: Map<u32, char>, ps: Seq<(char, char)>) -> Map<u32, char>
    decreases ps.len(),
{
    if ps.len() == 0 {
        m
    } else {
        insert_pairs(m, ps.drop_last()).insert(ps.last().0 as u32, ps.last().1)
    }
}

/// The (from, to) pairs one of the Japanese maps gets from the rows: `sel` picks the
/// columns (0: jp→zht, 1: jp→zhs, 2: zht→zhs, 3: zhs→zht, 4: zht→jp, 5: zhs→jp).
pub open spec fn jp_pairs(ts: Seq<(char, char, char)>, sel: int) -> Seq<(char, char)> {
    ts.map_values(
        |t: (char, char, char)|
            if sel == 0 {
                (t.0, t.1)
            } else if sel == 1 {
                (t.0, t.2)
            } else if sel == 2 {
                (t.1, t.2)
            } else if sel == 3 {
                (t.2, t.1)
            } else if sel == 4 {
                (t.1, t.0)
            } else {
                (t.2, t.0)
            },
    )
}

proof fn lemma_triple_rows_prefix(items: Seq<JsonValue>, j: int)
    requires
        0 <= j <= items.len(),
        triple_rows(items.take(j)) is None,
    ensures
        triple_rows(items) is None,
    decreases items.len() - j,
{
    if j == items.len() {
        assert(items.take(j) =~= items);
    } else {
        assert(items.take(j + 1).drop_last() =~= items.take(j));
        lemma_triple_rows_prefix(items, j + 1);
    }
}

/// The row as three strings, when it is one.
fn triple_of(v: &JsonValue) -> (r: Option<(&String, &String, &String)>)
    ensures
        match r {
            Some((a, b, c)) => triple_row(*v) == Some((a@, b@, c@)),
            None => triple_row(*v) is None,
        },
{
    match v {
        JsonValue::Array(xs) => {
            if xs.len() == 3 {
                match (&xs[0], &xs[1], &xs[2]) {
                    (JsonValue::Str(a), JsonValue::Str(b), JsonValue::Str(c)) => Some((a, b, c)),
                    _ => None,
                }
            } else {
                None
            }
        },
        _ => None,
    }
}

/// The first chars of the rows of the Japanese table document `text`.
fn jp_firsts_of(text: &str) -> (r: Vec<(char, char, char)>)
    ensures
        r@ == jp_firsts(jp_table_rows(text@)),
{
    let mut out: Vec<(char, char, char)> = Vec::new();
    match json_parse(text) {
        Some(JsonValue::Array(items)) => {
            let ghost mut rows: Seq<(Seq<char>, Seq<char>, Seq<char>)> = Seq::empty();
            let mut i: usize = 0;
            while i < items.len()
                invariant
                    spec_json_parse(text@) == Some(JsonValue::Array(items)),
                    i <= items@.len(),
                    triple_rows(items@.take(i as int)) == Some(rows),
                    out@ == jp_firsts(rows),
                decreases items@.len() - i,
            {
                proof {
                    assert(items@.take(i + 1).drop_last() =~= items@.take(i as int));
                    assert(items@.take(i + 1).last() == items@[i as int]);
                }
                match triple_of(&items[i]) {
                    Some((a, b, c)) => {
                        let fa = first_char_of(a.as_str());
                        let fb = first_char_of(b.as_str());
                        let fc = first_char_of(c.as_str());
                        let ghost before = rows;
                        proof {
                            rows = rows.push((a@, b@, c@));
                            assert(rows.drop_last() =~= before);
                        }
                        match (fa, fb, fc) {
                            (Some(x), Some(y), Some(z)) => {
                                out.push((x, y, z));
                                proof {
                                    assert(out@ =~= jp_firsts(rows));
                                }
                            },
                            _ => {
                                proof {
                                    assert(out@ =~= jp_firsts(rows));
                                }
                            },
                        }
                    },
                    None => {
                        let none: Vec<(char, char, char)> = Vec::new();
                        proof {
                            lemma_triple_rows_prefix(items@, i + 1);
                            assert(jp_table_rows(text@) == Seq::<(Seq<char>, Seq<char>, Seq<char>)>::empty());
                            assert(none@ =~= jp_firsts(jp_table_rows(text@)));
                        }
                        return none;
                    },
                }
                i += 1;
            }
            proof {
                assert(items@.take(items@.len() as int) =~= items@);
                assert(jp_table_rows(text@) == rows);
            }
        },
        _ => {
            proof {
                assert(jp_table_rows(text@) == Seq::<(Seq<char>, Seq<char>, Seq<char>)>::empty());
                assert(out@ =~= jp_firsts(jp_table_rows(text@)));
            }
        },
    }
    out
}

/// The entries of field `key` when it is an object.
fn object_entries<'a>(v: &'a JsonValue, key: &str) -> (r: Option<&'a Vec<(String, JsonValue)>>)
    ensures
        match r {
            Some(es) => object_field(*v, key@) == es@,
            None => object_field(*v, key@) == Seq::<(String, JsonValue)>::empty(),
        },
{
    match field(v, key) {
        Some(JsonValue::Object(es)) => Some(es),
        _ => None,
    }
}

impl CjkTables {
    /// Add the group of each entry of a group table.
    fn add_group_table(&mut self, es: &Vec<(String, JsonValue)>)
        requires
            old(self).wf(),
        ensures
            final(self).wf(),
            final(self).same_maps(old(self)),
            forall|c: char| #[trigger] final(self).alias_of(c).to_set() == old(self).alias_of(c).to_set().union(
                group_gain(object_groups(es@), c),
            ),
    {
        let mut i: usize = 0;
        while i < es.len()
            invariant
                self.wf(),
                i <= es@.len(),
                self.same_maps(old(self)),
                forall|c: char| #[trigger] self.alias_of(c).to_set() == old(self).alias_of(c).to_set().union(
                    group_gain(object_groups(es@.take(i as int)), c),
                ),
            decreases es@.len() - i,
        {
            let mut members: Vec<char> = Vec::new();
            match first_char_of(es[i].0.as_str()) {
                Some(f) => members.push(f),
                None => {},
            }
            let rest = first_chars_of(&es[i].1);
            let ghost head = members@;
            let mut j: usize = 0;
            while j < rest.len()
                invariant
                    j <= rest@.len(),
                    members@ == head + rest@.take(j as int),
                decreases rest@.len() - j,
            {
                members.push(rest[j]);
                assert(rest@.take(j + 1) =~= rest@.take(j as int).push(rest@[j as int]));
                j += 1;
            }
            proof {
                assert(rest@.take(rest@.len() as int) =~= rest@);
                assert(members@ =~= entry_group(es@[i as int]));
            }
            let ghost prev = *self;
            self.add_alias_group(&members);
            proof {
                let t = es@.take(i + 1);
                assert(t.drop_last() =~= es@.take(i as int));
                assert(t.last() == es@[i as int]);
                let gs = object_groups(t);
                assert(gs.drop_last() =~= object_groups(es@.take(i as int)));
                assert(gs.last() == members@);
                assert forall|c: char| #[trigger] self.alias_of(c).to_set() == old(self).alias_of(c).to_set().union(
                    group_gain(gs, c),
                ) by {
                    let x = if members@.contains(c) {
                        members@.to_set()
                    } else {
                        Set::empty()
                    };
                    assert(self.alias_of(c).to_set() =~= prev.alias_of(c).to_set().union(x));
                    assert(old(self).alias_of(c).to_set().union(group_gain(object_groups(es@.take(i as int)), c)).union(x)
                        =~= old(self).alias_of(c).to_set().union(group_gain(gs, c)));
                }
            }
            i += 1;
        }
        proof {
            assert(es@.take(es@.len() as int) =~= es@);
        }
    }

    /// Add each `table_tw` pair whose key and string both have a first char.
    fn add_pair_table(&mut self, es: &Vec<(String, JsonValue)>)
        requires
            old(self).wf(),
        ensures
            final(self).wf(),
            final(self).same_maps(old(self)),
            forall|c: char| #[trigger] final(self).alias_of(c).to_set() == old(self).alias_of(c).to_set().union(
                group_gain(pair_groups(es@), c),
            ),
    {
        let mut i: usize = 0;
        while i < es.len()
            invariant
                self.wf(),
                i <= es@.len(),
                self.same_maps(old(self)),
                forall|c: char| #[trigger] self.alias_of(c).to_set() == old(self).alias_of(c).to_set().union(
                    group_gain(pair_groups(es@.take(i as int)), c),
                ),
            decreases es@.len() - i,
        {
            let t = Ghost(es@.take(i + 1));
            proof {
                assert(t@.drop_last() =~= es@.take(i as int));
                assert(t@.last() == es@[i as int]);
            }
            let a = first_char_of(es[i].0.as_str());
            let b = match &es[i].1 {
                JsonValue::Str(s) => first_char_of(s.as_str()),
                _ => None,
            };
            let ghost prev = *self;
            match (a, b) {
                (Some(x), Some(y)) => {
                    let mut members: Vec<char> = Vec::new();
                    members.push(x);
                    members.push(y);
                    self.add_alias_group(&members);
                    proof {
                        let gs = pair_groups(t@);
                        assert(members@ =~= seq![x, y]);
                        assert(first_char(t@.last().0@) == Some(x));
                        assert(str_first(t@.last().1) == Some(y));
                        assert(gs =~= pair_groups(es@.take(i as int)).push(members@));
                        assert(gs.drop_last() =~= pair_groups(es@.take(i as int)));
                        assert forall|c: char| #[trigger] self.alias_of(c).to_set() == old(self).alias_of(c).to_set().union(
                            group_gain(gs, c),
                        ) by {
                            let g = if members@.contains(c) {
                                members@.to_set()
                            } else {
                                Set::empty()
                            };
                            assert(self.alias_of(c).to_set() =~= prev.alias_of(c).to_set().union(g));
                            assert(old(self).alias_of(c).to_set().union(group_gain(pair_groups(es@.take(i as int)), c)).union(g)
                                =~= old(self).alias_of(c).to_set().union(group_gain(gs, c)));
                        }
                    }
                },
                _ => {
                    proof {
                        assert(pair_groups(t@) =~= pair_groups(es@.take(i as int)));
                    }
                },
            }
            i += 1;
        }
        proof {
            assert(es@.take(es@.len() as int) =~= es@);
        }
    }

    /// Add each `table_cn` row whose key has a first char.
    fn add_star_table(&mut self, es: &Vec<(String, JsonValue)>)
        requires
            old(self).wf(),
        ensures
            final(self).wf(),
            final(self).same_maps(old(self)),
            forall|c: char| #[trigger] final(self).alias_of(c).to_set() == old(self).alias_of(c).to_set().union(
                star_gain(star_rows(es@), c),
            ),
    {
        let mut i: usize = 0;
        while i < es.len()
            invariant
                self.wf(),
                i <= es@.len(),
                self.same_maps(old(self)),
                forall|c: char| #[trigger] self.alias_of(c).to_set() == old(self).alias_of(c).to_set().union(
                    star_gain(star_rows(es@.take(i as int)), c),
                ),
            decreases es@.len() - i,
        {
            let t = Ghost(es@.take(i + 1));
            proof {
                assert(t@.drop_last() =~= es@.take(i as int));
                assert(t@.last() == es@[i as int]);
            }
            let ghost prev = *self;
            match first_char_of(es[i].0.as_str()) {
                Some(f) => {
                    let tos = first_chars_of(&es[i].1);
                    self.add_alias_star(f, &tos);
                    proof {
                        let ss = star_rows(t@);
                        assert(ss =~= star_rows(es@.take(i as int)).push((f, tos@)));
                        assert(ss.drop_last() =~= star_rows(es@.take(i as int)));
                        assert forall|c: char| #[trigger] self.alias_of(c).to_set() == old(self).alias_of(c).to_set().union(
                            star_gain(ss, c),
                        ) by {
                            let g = if f == c {
                                set![c].union(tos@.to_set())
                            } else {
                                Set::empty()
                            };
                            if c == f {
                                assert(self.alias_of(c).to_set() =~= prev.alias_of(c).to_set().union(g));
                            } else {
                                assert(self.alias_of(c) == prev.alias_of(c));
                                assert(prev.alias_of(c).to_set().union(g) =~= prev.alias_of(c).to_set());
                            }
                            assert(old(self).alias_of(c).to_set().union(star_gain(star_rows(es@.take(i as int)), c)).union(g)
                                =~= old(self).alias_of(c).to_set().union(star_gain(ss, c)));
                        }
                    }
                },
                None => {
                    proof {
                        assert(star_rows(t@) =~= star_rows(es@.take(i as int)));
                    }
                },
            }
            i += 1;
        }
        proof {
            assert(es@.take(es@.len() as int) =~= es@);
        }
    }

    /// Read the alias document (`zh-table-alias.json`): the entries of `table_plus`,
    /// `table_jp`, `table_jp_core` and `table_plus_core` and the `table_tw` pairs become
    /// alias groups, each `table_cn` row adds its chars to the aliases of its key; a text
    /// that is no JSON document adds nothing.
    pub fn add_alias_json(&mut self, text: &str)
        requires
            old(self).wf(),
        ensures
            final(self).wf(),
            final(self).same_maps(old(self)),
            forall|c: char| #[trigger] final(self).alias_of(c).to_set() == old(self).alias_of(c).to_set().union(
                alias_json_gain(text@, c),
            ),
    {
        match json_parse(text) {
            Some(v) => {
                let ghost s0 = *self;
                self.add_field_groups(&v, "table_plus");
                let ghost s1 = *self;
                self.add_field_groups(&v, "table_jp");
                let ghost s2 = *self;
                self.add_field_groups(&v, "table_jp_core");
                let ghost s3 = *self;
                self.add_field_groups(&v, "table_plus_core");
                let ghost s4 = *self;
                match object_entries(&v, "table_tw") {
                    Some(es) => self.add_pair_table(es),
                    None => {},
                }
                let ghost s5 = *self;
                match object_entries(&v, "table_cn") {
                    Some(es) => self.add_star_table(es),
                    None => {},
                }
                proof {
                    let g1 = object_groups(object_field(v, "table_plus"@));
                    let g2 = object_groups(object_field(v, "table_jp"@));
                    let g3 = object_groups(object_field(v, "table_jp_core"@));
                    let g4 = object_groups(object_field(v, "table_plus_core"@));
                    let g5 = pair_groups(object_field(v, "table_tw"@));
                    let st = star_rows(object_field(v, "table_cn"@));
                    assert forall|c: char| #[trigger] self.alias_of(c).to_set() == old(self).alias_of(c).to_set().union(
                        alias_json_gain(text@, c),
                    ) by {
                        lemma_group_gain_add(g1, g2, c);
                        lemma_group_gain_add(g1 + g2, g3, c);
                        lemma_group_gain_add(g1 + g2 + g3, g4, c);
                        lemma_group_gain_add(g1 + g2 + g3 + g4, g5, c);
                        if object_field(v, "table_tw"@).len() == 0 {
                            assert(g5 == Seq::<Seq<char>>::empty());
                        }
                        if object_field(v, "table_cn"@).len() == 0 {
                            assert(st == Seq::<(char, Seq<char>)>::empty());
                        }
                        assert(s5.alias_of(c).to_set() == s4.alias_of(c).to_set().union(group_gain(g5, c)));
                        assert(self.alias_of(c).to_set() == s5.alias_of(c).to_set().union(star_gain(st, c)));
                        assert(self.alias_of(c).to_set() =~= old(self).alias_of(c).to_set().union(
                            group_gain(g1, c).union(group_gain(g2, c)).union(group_gain(g3, c)).union(group_gain(g4, c)).union(
                                group_gain(g5, c),
                            ).union(star_gain(st, c)),
                        ));
                    }
                }
            },
            None => {
                proof {
                    assert forall|c: char| #[trigger] self.alias_of(c).to_set() == old(self).alias_of(c).to_set().union(
                        alias_json_gain(text@, c),
                    ) by {
                        assert(old(self).alias_of(c).to_set().union(Set::empty()) =~= old(self).alias_of(c).to_set());
                    }
                }
            },
        }
    }

    /// Read the Japanese table document (`jp-table-safe.json`, rows of a Japanese, a
    /// traditional and a simplified form): for each row whose three forms have first chars,
    /// those chars are mapped onto one another; a text that is not such a document adds
    /// nothing.
    pub fn add_jp_json(&mut self, text: &str)
        ensures
            final(self).jp2zht@ == insert_pairs(old(self).jp2zht@, jp_pairs(jp_firsts(jp_table_rows(text@)), 0)),
            final(self).jp2zhs@ == insert_pairs(old(self).jp2zhs@, jp_pairs(jp_firsts(jp_table_rows(text@)), 1)),
            final(self).zht2zhs@ == insert_pairs(old(self).zht2zhs@, jp_pairs(jp_firsts(jp_table_rows(text@)), 2)),
            final(self).zhs2zht@ == insert_pairs(old(self).zhs2zht@, jp_pairs(jp_firsts(jp_table_rows(text@)), 3)),
            final(self).zht2jp@ == insert_pairs(old(self).zht2jp@, jp_pairs(jp_firsts(jp_table_rows(text@)), 4)),
            final(self).zhs2jp@ == insert_pairs(old(self).zhs2jp@, jp_pairs(jp_firsts(jp_table_rows(text@)), 5)),
            final(self).alias@ == old(self).alias@,
            final(self).cn2tw@ == old(self).cn2tw@,
            final(self).tw2cn@ == old(self).tw2cn@,
    {
        let ts = jp_firsts_of(text);
        let mut i: usize = 0;
        while i < ts.len()
            invariant
                i <= ts@.len(),
                self.jp2zht@ == insert_pairs(old(self).jp2zht@, jp_pairs(ts@.take(i as int), 0)),
                self.jp2zhs@ == insert_pairs(old(self).jp2zhs@, jp_pairs(ts@.take(i as int), 1)),
                self.zht2zhs@ == insert_pairs(old(self).zht2zhs@, jp_pairs(ts@.take(i as int), 2)),
                self.zhs2zht@ == insert_pairs(old(self).zhs2zht@, jp_pairs(ts@.take(i as int), 3)),
                self.zht2jp@ == insert_pairs(old(self).zht2jp@, jp_pairs(ts@.take(i as int), 4)),
                self.zhs2jp@ == insert_pairs(old(self).zhs2jp@, jp_pairs(ts@.take(i as int), 5)),
                self.alias@ == old(self).alias@,
                self.cn2tw@ == old(self).cn2tw@,
                self.tw2cn@ == old(self).tw2cn@,
            decreases ts@.len() - i,
        {
            let (jp, zht, zhs) = ts[i];
            self.add_jp_row(jp, zht, zhs);
            proof {
                let t = ts@.take(i + 1);
                assert(t.drop_last() =~= ts@.take(i as int));
                assert(t.last() == (jp, zht, zhs));
                assert forall|sel: int| 0 <= sel <= 5 implies #[trigger] jp_pairs(t, sel).drop_last() =~= jp_pairs(
                    ts@.take(i as int),
                    sel,
                ) by {}
                assert(jp_pairs(t, 0).last() == (jp, zht));
                assert(jp_pairs(t, 1).last() == (jp, zhs));
                assert(jp_pairs(t, 2).last() == (zht, zhs));
                assert(jp_pairs(t, 3).last() == (zhs, zht));
                assert(jp_pairs(t, 4).last() == (zht, jp));
                assert(jp_pairs(t, 5).last() == (zhs, jp));
            }
            i += 1;
        }
        proof {
            assert(ts@.take(ts@.len() as int) =~= ts@);
        }
    }

    /// Add the groups of field `key` when it is an object.
    fn add_field_groups(&mut self, v: &JsonValue, key: &str)
        requires
            old(self).wf(),
        ensures
            final(self).wf(),
            final(self).same_maps(old(self)),
            forall|c: char| #[trigger] final(self).alias_of(c).to_set() == old(self).alias_of(c).to_set().union(
                group_gain(object_groups(object_field(*v, key@)), c),
            ),
    {
        match object_entries(v, key) {
            Some(es) => self.add_group_table(es),
            None => {
                proof {
                    assert(object_groups(object_field(*v, key@)) == Seq::<Seq<char>>::empty());
                    assert forall|c: char| #[trigger] self.alias_of(c).to_set() == old(self).alias_of(c).to_set().union(
                        group_gain(object_groups(object_field(*v, key@)), c),
                    ) by {
                        assert(old(self).alias_of(c).to_set().union(Set::empty()) =~= old(self).alias_of(c).to_set());
                    }
                }
            },
        }
    }
}

} // verus!
