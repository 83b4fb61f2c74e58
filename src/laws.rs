use vstd::prelude::*;
use crate::feasibility::possible;
use crate::power::{Colour, count_in, max_count, minimum_set, power_of};
use crate::game::{
    add_token,
    colour_map_of,
    comma_sep,
    game_text,
    label_sep,
    line_rounds,
    round_of,
    round_text,
    rounds_of,
    semicolon_sep,
    space_sep,
    token_text,
    tokens_text,
};
use crate::round::{
    Round,
    blue_name,
    entries_map,
    entries_map_dom,
    entries_map_value,
    green_name,
    is_known_colour,
    red_name,
};
use crate::text::{
    all_digits,
    count_digits,
    count_of,
    decimal,
    decimal_reads_back,
    find_first_at,
    is_space,
    join_ends,
    join,
    join_lacks,
    split,
    split_join,
    trim,
    trim_end,
    trim_start,
};

verus! {

broadcast use vstd::seq_lib::group_to_multiset_ensures;

/// For counts that cannot be negative, the check on the total never rejects
/// a round that passes the three checks by colour.
pub proof fn total_check_is_implied(r: Round, constraints: Round)
    ensures
        r.satisfies(constraints) <==> (r.red <= constraints.red && r.green <= constraints.green
            && r.blue <= constraints.blue),
{
}

/// A game is possible under 12 red, 13 green and 14 blue cubes exactly when
/// no round shows more than 12 red, 13 green or 14 blue.
pub proof fn possible_iff_within_limits(rounds: Seq<Round>)
    ensures
        possible(rounds, Round { red: 12, green: 13, blue: 14 }) <==> forall|i: int|
            0 <= i < rounds.len() ==> (#[trigger] rounds[i]).red <= 12 && rounds[i].green <= 13
                && rounds[i].blue <= 14,
{
}

/// The largest count is at least every round's count, and is one of them
/// where there are rounds.
proof fn max_count_is_largest(rounds: Seq<Round>, c: Colour)
    ensures
        forall|i: int| 0 <= i < rounds.len() ==> count_in(#[trigger] rounds[i], c) <= max_count(
            rounds,
            c,
        ),
        rounds.len() > 0 ==> exists|i: int|
            0 <= i < rounds.len() && count_in(#[trigger] rounds[i], c) == max_count(rounds, c),
        rounds.len() == 0 ==> max_count(rounds, c) == 0,
    decreases rounds.len(),
{
    if rounds.len() > 0 {
        let init = rounds.drop_last();
        max_count_is_largest(init, c);
        assert forall|i: int| 0 <= i < rounds.len() implies count_in(#[trigger] rounds[i], c)
            <= max_count(rounds, c) by {
            if i < rounds.len() - 1 {
                assert(init[i] == rounds[i]);
            }
        }
        if max_count(init, c) >= count_in(rounds.last(), c) && init.len() > 0 {
            let j = choose|j: int| 0 <= j < init.len() && count_in(#[trigger] init[j], c) == max_count(init, c);
            assert(rounds[j] == init[j]);
        } else {
            assert(rounds[rounds.len() - 1] == rounds.last());
        }
    }
}

/// Rounds that hold each other's rounds have the same largest count.
proof fn max_count_same_rounds(a: Seq<Round>, b: Seq<Round>, c: Colour)
    requires
        forall|x: Round| a.contains(x) <==> b.contains(x),
    ensures
        max_count(a, c) == max_count(b, c),
{
    max_count_is_largest(a, c);
    max_count_is_largest(b, c);
    if a.len() > 0 {
        let i = choose|i: int| 0 <= i < a.len() && count_in(#[trigger] a[i], c) == max_count(a, c);
        assert(a.contains(a[i]));
        let j = choose|j: int| 0 <= j < b.len() && b[j] == a[i];
        assert(max_count(a, c) <= max_count(b, c));
    }
    if b.len() > 0 {
        let j = choose|j: int| 0 <= j < b.len() && count_in(#[trigger] b[j], c) == max_count(b, c);
        assert(b.contains(b[j]));
        let i = choose|i: int| 0 <= i < a.len() && a[i] == b[j];
        assert(max_count(b, c) <= max_count(a, c));
    }
    if a.len() == 0 && b.len() > 0 {
        assert(b.contains(b[0]));
    }
    if b.len() == 0 && a.len() > 0 {
        assert(a.contains(a[0]));
    }
}

/// The minimum set, and so its power, does not depend on the order in which
/// a game's rounds are listed.
pub proof fn power_ignores_round_order(a: Seq<Round>, b: Seq<Round>)
    requires
        a.to_multiset() == b.to_multiset(),
    ensures
        minimum_set(a) == minimum_set(b),
        power_of(a) == power_of(b),
{
    assert forall|x: Round| a.contains(x) <==> b.contains(x) by {
        assert(a.contains(x) <==> a.to_multiset().count(x) > 0);
        assert(b.contains(x) <==> b.to_multiset().count(x) > 0);
    }
    max_count_same_rounds(a, b, Colour::Red);
    max_count_same_rounds(a, b, Colour::Green);
    max_count_same_rounds(a, b, Colour::Blue);
}

/// Byte facts about the three colour names: lower-case letters only.
proof fn known_colour_bytes(name: Seq<u8>)
    requires
        is_known_colour(name),
    ensures
        name.len() >= 1,
        forall|j: int| 0 <= j < name.len() ==> 0x61u8 <= #[trigger] name[j] <= 0x7au8,
{
}

/// A text of lower-case letters or of digits holds none of the separators.
proof fn plain_bytes_lack(s: Seq<u8>, b: u8)
    requires
        b == 0x20u8 || b == 0x2cu8 || b == 0x3bu8 || b == 0x3au8,
        forall|j: int| 0 <= j < s.len() ==> (0x61u8 <= #[trigger] s[j] <= 0x7au8) || (0x30u8
            <= s[j] <= 0x39u8),
    ensures
        !s.contains(b),
{
    if s.contains(b) {
        let j = choose|j: int| 0 <= j < s.len() && s[j] == b;
        assert(s[j] == b);
    }
}

/// A token splits back into its count and its name.
proof fn token_fields(count: u32, name: Seq<u8>)
    requires
        is_known_colour(name),
    ensures
        split(token_text(count, name), space_sep()) == seq![decimal(count as nat), name],
        !token_text(count, name).contains(0x2cu8),
        !token_text(count, name).contains(0x3bu8),
        !token_text(count, name).contains(0x3au8),
        token_text(count, name).len() >= 1,
        !is_space(token_text(count, name)[0]),
        !is_space(token_text(count, name).last()),
{
    let d = decimal(count as nat);
    decimal_reads_back(count as nat);
    known_colour_bytes(name);
    let pieces = seq![d, name];
    plain_bytes_lack(d, 0x20u8);
    plain_bytes_lack(name, 0x20u8);
    assert(space_sep()[0] == 0x20u8);
    assert forall|i: int| 0 <= i < pieces.len() implies !(#[trigger] pieces[i]).contains(
        space_sep()[0],
    ) by {
        if i == 0 {
            assert(pieces[i] == d);
        } else {
            assert(pieces[i] == name);
        }
    }
    split_join(pieces, space_sep());
    assert(!space_sep().contains(0x2cu8));
    assert(!space_sep().contains(0x3bu8));
    assert(!space_sep().contains(0x3au8));
    plain_bytes_lack(d, 0x2cu8);
    plain_bytes_lack(name, 0x2cu8);
    plain_bytes_lack(d, 0x3bu8);
    plain_bytes_lack(name, 0x3bu8);
    plain_bytes_lack(d, 0x3au8);
    plain_bytes_lack(name, 0x3au8);
    assert(pieces[0] == d);
    assert(pieces[1] == name);
    join_lacks(pieces, space_sep(), 0x2cu8);
    join_lacks(pieces, space_sep(), 0x3bu8);
    join_lacks(pieces, space_sep(), 0x3au8);
    let t = token_text(count, name);
    assert(pieces.skip(1) =~= seq![name]);
    assert(join(seq![name], space_sep()) == name);
    assert(join(pieces, space_sep()) == d + space_sep() + join(pieces.skip(1), space_sep()));
    assert(t == d + space_sep() + name);
    assert(t[0] == d[0]);
    assert(t.last() == name.last());
}

/// Adding a rendered token to a map that lacks its colour records its count.
proof fn add_token_reads(m: Map<Seq<u8>, u32>, count: u32, name: Seq<u8>)
    requires
        is_known_colour(name),
        !m.dom().contains(name),
    ensures
        add_token(m, token_text(count, name)) == Ok::<Map<Seq<u8>, u32>, crate::round::ParseError>(
            m.insert(name, count),
        ),
{
    token_fields(count, name);
    let d = decimal(count as nat);
    decimal_reads_back(count as nat);
    known_colour_bytes(name);
    assert(count_digits(d) == d);
    assert(count_of(d) == Some(count));
    assert(trim_start(name) == name);
    assert(trim_end(name) == name);
    assert(trim(name) == name);
}

/// The colour map of rendered tokens holds each name with its count.
proof fn colour_map_reads(names: Seq<Seq<u8>>, counts: Seq<u32>)
    requires
        names.len() == counts.len(),
        forall|i: int| 0 <= i < names.len() ==> is_known_colour(#[trigger] names[i]),
        names.no_duplicates(),
    ensures
        colour_map_of(tokens_text(names, counts)) == Ok::<
            Map<Seq<u8>, u32>,
            crate::round::ParseError,
        >(entries_map(names, counts)),
    decreases names.len(),
{
    let toks = tokens_text(names, counts);
    if names.len() > 0 {
        let init = names.drop_last();
        assert forall|i: int| 0 <= i < init.len() implies is_known_colour(#[trigger] init[i]) by {
            assert(init[i] == names[i]);
        }
        assert(init.no_duplicates()) by {
            assert forall|a: int, b: int| 0 <= a < b < init.len() implies init[a] != init[b] by {
                assert(init[a] == names[a] && init[b] == names[b]);
            }
        }
        colour_map_reads(init, counts.drop_last());
        assert(toks.drop_last() =~= tokens_text(init, counts.drop_last()));
        entries_map_dom(init, counts.drop_last(), names.last());
        assert forall|i: int| 0 <= i < init.len() implies init[i] != names.last() by {
            assert(init[i] == names[i]);
            assert(names.last() == names[names.len() - 1]);
        }
        assert(is_known_colour(names[names.len() - 1]));
        add_token_reads(entries_map(init, counts.drop_last()), counts.last(), names.last());
    } else {
        assert(entries_map(names, counts) == Map::<Seq<u8>, u32>::empty());
    }
}

/// The count that parallel lists give a colour, zero where it is absent.
pub open spec fn listed_count(names: Seq<Seq<u8>>, counts: Seq<u32>, name: Seq<u8>) -> u32 {
    if exists|i: int| 0 <= i < names.len() && names[i] == name {
        counts[choose|i: int| 0 <= i < names.len() && names[i] == name]
    } else {
        0
    }
}

/// The map of the listed entries gives each colour its listed count.
proof fn entries_count(names: Seq<Seq<u8>>, counts: Seq<u32>, name: Seq<u8>)
    requires
        names.len() == counts.len(),
        names.no_duplicates(),
    ensures
        crate::round::count_or_zero(entries_map(names, counts), name) == listed_count(
            names,
            counts,
            name,
        ),
{
    entries_map_dom(names, counts, name);
    if exists|i: int| 0 <= i < names.len() && names[i] == name {
        let i = choose|i: int| 0 <= i < names.len() && names[i] == name;
        entries_map_value(names, counts, i);
    }
}

/// Decoding a round written as `<count> <colour>` tokens separated by
/// `", "`, for distinct colours among red, green and blue in any order,
/// reads back each listed count, and zero for each colour not listed.
pub proof fn round_text_reads_back(names: Seq<Seq<u8>>, counts: Seq<u32>)
    requires
        names.len() == counts.len(),
        names.len() >= 1,
        forall|i: int| 0 <= i < names.len() ==> is_known_colour(#[trigger] names[i]),
        names.no_duplicates(),
    ensures
        round_of(join(tokens_text(names, counts), comma_sep())) == Ok::<
            Round,
            crate::round::ParseError,
        >(
            Round {
                red: listed_count(names, counts, red_name()),
                green: listed_count(names, counts, green_name()),
                blue: listed_count(names, counts, blue_name()),
            },
        ),
{
    let toks = tokens_text(names, counts);
    assert forall|i: int| 0 <= i < toks.len() implies !(#[trigger] toks[i]).contains(
        comma_sep()[0],
    ) by {
        token_fields(counts[i], names[i]);
    }
    split_join(toks, comma_sep());
    colour_map_reads(names, counts);
    let m = entries_map(names, counts);
    assert forall|k: Seq<u8>| #[trigger] m.dom().contains(k) implies is_known_colour(k) by {
        entries_map_dom(names, counts, k);
    }
    entries_count(names, counts, red_name());
    entries_count(names, counts, green_name());
    entries_count(names, counts, blue_name());
}

/// A round written with all three colours decodes to itself, and its text
/// holds no `;` or `:` and starts and ends with no whitespace.
proof fn round_text_facts(r: Round)
    ensures
        round_of(round_text(r)) == Ok::<Round, crate::round::ParseError>(r),
        round_text(r).len() >= 1,
        !round_text(r).contains(0x3bu8),
        !round_text(r).contains(0x3au8),
        !is_space(round_text(r)[0]),
        !is_space(round_text(r).last()),
{
    let names = seq![red_name(), green_name(), blue_name()];
    let counts = seq![r.red, r.green, r.blue];
    assert(red_name().len() == 3 && green_name().len() == 5 && blue_name().len() == 4);
    assert(names.no_duplicates());
    round_text_reads_back(names, counts);
    assert(names[0] == red_name());
    assert(names[1] == green_name());
    assert(names[2] == blue_name());
    assert(listed_count(names, counts, red_name()) == r.red);
    assert(listed_count(names, counts, green_name()) == r.green);
    assert(listed_count(names, counts, blue_name()) == r.blue);
    let toks = tokens_text(names, counts);
    token_fields(r.red, red_name());
    token_fields(r.green, green_name());
    token_fields(r.blue, blue_name());
    assert(toks[0] == token_text(r.red, red_name()));
    assert(toks[1] == token_text(r.green, green_name()));
    assert(toks[2] == token_text(r.blue, blue_name()));
    assert(toks.last() == toks[2]);
    assert(!comma_sep().contains(0x3bu8));
    assert(!comma_sep().contains(0x3au8));
    join_lacks(toks, comma_sep(), 0x3bu8);
    join_lacks(toks, comma_sep(), 0x3au8);
    join_ends(toks, comma_sep());
}

/// Rounds written back as texts decode to themselves.
proof fn rounds_of_texts(rounds: Seq<Round>)
    ensures
        rounds_of(rounds.map_values(|r: Round| round_text(r))) == Ok::<
            Seq<Round>,
            crate::round::ParseError,
        >(rounds),
    decreases rounds.len(),
{
    let texts = rounds.map_values(|r: Round| round_text(r));
    if rounds.len() > 0 {
        rounds_of_texts(rounds.drop_last());
        assert(texts.drop_last() =~= rounds.drop_last().map_values(|r: Round| round_text(r)));
        round_text_facts(rounds.last());
        assert(rounds.drop_last().push(rounds.last()) =~= rounds);
    } else {
        assert(rounds =~= Seq::<Round>::empty());
    }
}

/// Writing a game's rounds back as a line, `<label>: <round>; <round>`
/// with every colour named in each round, and decoding that line gives the
/// same rounds, for any label without a colon.
pub proof fn game_text_round_trip(label: Seq<u8>, rounds: Seq<Round>)
    requires
        rounds.len() >= 1,
        !label.contains(0x3au8),
    ensures
        line_rounds(game_text(label, rounds)) == Ok::<Seq<Round>, crate::round::ParseError>(
            rounds,
        ),
{
    let texts = rounds.map_values(|r: Round| round_text(r));
    let body = join(texts, semicolon_sep());
    let line = game_text(label, rounds);
    assert forall|i: int| 0 <= i < texts.len() implies !(#[trigger] texts[i]).contains(
        semicolon_sep()[0],
    ) by {
        round_text_facts(rounds[i]);
    }
    assert forall|i: int| 0 <= i < texts.len() implies !(#[trigger] texts[i]).contains(0x3au8) by {
        round_text_facts(rounds[i]);
    }
    split_join(texts, semicolon_sep());
    assert(!semicolon_sep().contains(0x3au8));
    join_lacks(texts, semicolon_sep(), 0x3au8);
    round_text_facts(rounds[0]);
    round_text_facts(rounds.last());
    join_ends(texts, semicolon_sep());
    let n = label.len() as int;
    assert(line.subrange(n, n + 2) =~= label_sep());
    assert forall|j: int| 0 <= j < n implies line[j] != label_sep()[0] by {
        if line[j] == 0x3au8 {
            assert(label.contains(label[j]));
        }
    }
    find_first_at(line, label_sep(), 0, n);
    assert(line.skip(n + 2) =~= body);
    assert(trim_start(body) == body);
    assert(trim_end(body) == body);
    rounds_of_texts(rounds);
}

} // verus!
