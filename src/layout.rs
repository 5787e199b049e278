//! The layout of a window record in a `clients` response, and the law that
//! reading records laid out this way gives back their fields.
use vstd::prelude::*;

use crate::clients::{
    bare_address, clean_info, clean_name, empty_draft, key_class, key_focus, key_initial_class,
    key_initial_title, key_pid, key_title, key_window, key_workspace, lemma_sort_sorted,
    parse_clients, parse_from, records_of_tokens, sort_by_order, sorted_by_order, Draft,
};
use crate::text::{
    all_digits, contains, decimal, digit_char, digit_value, digits_value, find, is_space,
    occurs_at, parse_number, parse_usize,
};
use crate::tokens::{join, read_until, tokens_from};
use crate::workspaces::{ProtocolError, WindowModel};

verus! {

/// A window record, given as the words of each field.
pub struct RecordWords {
    pub address: Seq<char>,
    /// What follows the address up to `workspace:` (the `-> <title>:` header
    /// and fields such as `mapped:` or `size:`).
    pub header: Seq<Seq<char>>,
    pub tag: usize,
    /// What follows the workspace number up to `class:` (its name in
    /// parentheses, and fields such as `floating:` or `monitor:`).
    pub after_tag: Seq<Seq<char>>,
    pub class: Seq<Seq<char>>,
    pub title: Seq<Seq<char>>,
    pub initial_class: Seq<Seq<char>>,
    pub initial_title: Seq<Seq<char>>,
    pub pid: Seq<Seq<char>>,
    pub order: usize,
    /// What follows the focus number (fields such as `inhibitingIdle:`).
    pub after_order: Seq<Seq<char>>,
}

/// The tokens of a record, in the order the compositor lists its fields.
pub open spec fn record_tokens(r: RecordWords) -> Seq<Seq<char>> {
    seq![key_window(), r.address] + r.header + seq![key_workspace(), decimal(r.tag as nat)]
        + r.after_tag + seq![key_class()] + r.class + seq![key_title()] + r.title + seq![
        key_initial_class(),
    ] + r.initial_class + seq![key_initial_title()] + r.initial_title + seq![key_pid()] + r.pid
        + seq![key_focus(), decimal(r.order as nat)] + r.after_order
}

/// The tokens of records laid out one after another.
pub open spec fn records_tokens(rs: Seq<RecordWords>) -> Seq<Seq<char>>
    decreases rs.len(),
{
    if rs.len() == 0 {
        seq![]
    } else {
        records_tokens(rs.drop_last()) + record_tokens(rs.last())
    }
}

/// The names of the fields that the parser acts on.
pub open spec fn is_field_name(t: Seq<char>) -> bool {
    ||| t == key_workspace()
    ||| t == key_title()
    ||| t == key_initial_title()
    ||| t == key_focus()
    ||| t == key_window()
    ||| t == key_class()
}

/// Words that the parser passes over: none of them is a field name.
pub open spec fn skipped(words: Seq<Seq<char>>) -> bool {
    forall|j: int| 0 <= j < words.len() ==> !is_field_name(#[trigger] words[j])
}

/// A record whose words read back unchanged: the address is no field name
/// and has no `0x` prefix, each multi-word value holds no word that contains
/// the next field's name, and the words of the fields that are skipped are no
/// field names.
pub open spec fn well_formed(r: RecordWords) -> bool {
    &&& !is_field_name(r.address)
    &&& skipped(r.header)
    &&& skipped(r.after_tag)
    &&& skipped(r.after_order)
    &&& bare_address(r.address) == r.address
    &&& forall|j: int| 0 <= j < r.class.len() ==> !contains(#[trigger] r.class[j], key_title())
    &&& forall|j: int| 0 <= j < r.title.len() ==> !contains(#[trigger] r.title[j], key_initial_class())
    &&& skipped(r.initial_class)
    &&& forall|j: int| 0 <= j < r.initial_title.len() ==> !contains(#[trigger] r.initial_title[j], key_pid())
    &&& skipped(r.pid)
}

/// The window that a record describes.
pub open spec fn model_of(r: RecordWords) -> WindowModel {
    WindowModel {
        name: clean_name(join(r.initial_title)),
        info: clean_info(join(r.title)),
        address: r.address,
        class: join(r.class),
        tag: r.tag,
        order: r.order,
    }
}

proof fn lemma_digit(d: nat)
    requires
        d < 10,
    ensures
        '0' <= digit_char(d) <= '9',
        digit_value(digit_char(d)) == d,
{
}

proof fn lemma_decimal(n: nat)
    ensures
        decimal(n).len() > 0,
        all_digits(decimal(n)),
        digits_value(decimal(n)) == n,
    decreases n,
{
    if n < 10 {
        lemma_digit(n);
        assert(decimal(n).drop_last() == Seq::<char>::empty());
        assert(digits_value(Seq::<char>::empty()) == 0);
        assert(digits_value(decimal(n)) == digits_value(decimal(n).drop_last()) * 10 + digit_value(
            decimal(n).last(),
        ));
    } else {
        lemma_decimal(n / 10);
        lemma_digit(n % 10);
        assert(decimal(n).drop_last() == decimal(n / 10));
        assert(decimal(n).last() == digit_char(n % 10));
        assert(n == (n / 10) * 10 + n % 10);
        assert(digits_value(decimal(n)) == digits_value(decimal(n).drop_last()) * 10 + digit_value(
            decimal(n).last(),
        ));
        assert forall|i: int| 0 <= i < decimal(n).len() implies '0' <= #[trigger] decimal(n)[i]
            <= '9' by {
            if i < decimal(n / 10).len() {
                assert(decimal(n)[i] == decimal(n / 10)[i]);
            }
        }
    }
}

proof fn lemma_decimal_reads_back(n: usize)
    ensures
        parse_usize(decimal(n as nat)) == Some(n),
        !is_field_name(decimal(n as nat)),
{
    lemma_decimal(n as nat);
    lemma_field_names();
    let d = decimal(n as nat);
    assert('0' <= d[0] <= '9');
    assert(parse_number(d) == Some(n as nat));
}

proof fn lemma_field_names()
    ensures
        key_workspace().len() == 10 && key_workspace()[0] == 'w',
        key_title().len() == 6 && key_title()[0] == 't',
        key_initial_class().len() == 13 && key_initial_class()[0] == 'i'
            && key_initial_class()[7] == 'C',
        key_initial_title().len() == 13 && key_initial_title()[0] == 'i'
            && key_initial_title()[7] == 'T',
        key_pid().len() == 4 && key_pid()[0] == 'p',
        key_focus().len() == 15 && key_focus()[0] == 'f',
        key_window().len() == 6 && key_window()[0] == 'W',
        key_class().len() == 6 && key_class()[0] == 'c',
{
    reveal_strlit("workspace:");
    reveal_strlit("title:");
    reveal_strlit("initialClass:");
    reveal_strlit("initialTitle:");
    reveal_strlit("pid:");
    reveal_strlit("focusHistoryID:");
    reveal_strlit("Window");
    reveal_strlit("class:");
}

proof fn lemma_find_self(s: Seq<char>)
    ensures
        find(s, s) == Some(0int),
{
    assert(s.subrange(0, s.len() as int) == s);
    assert(occurs_at(s, s, 0));
}

/// A value of `words` that ends at a token equal to `sentinel` is read whole.
proof fn lemma_read_words(toks: Seq<Seq<char>>, i: int, words: Seq<Seq<char>>, sentinel: Seq<char>)
    requires
        0 <= i,
        i + words.len() < toks.len(),
        forall|j: int| 0 <= j < words.len() ==> toks[i + j] == #[trigger] words[j],
        forall|j: int| 0 <= j < words.len() ==> !contains(#[trigger] words[j], sentinel),
        toks[i + words.len()] == sentinel,
    ensures
        read_until(toks, i, sentinel) == (words, i + words.len()),
    decreases words.len(),
{
    if words.len() == 0 {
        lemma_find_self(sentinel);
    } else {
        let rest = words.drop_first();
        assert forall|j: int| 0 <= j < rest.len() implies toks[i + 1 + j] == #[trigger] rest[j] by {
            assert(toks[i + (j + 1)] == words[j + 1]);
        }
        assert(toks[i] == words[0]);
        lemma_read_words(toks, i + 1, rest, sentinel);
        assert(seq![words[0]] + rest == words);
    }
}

/// Words that are no field names are passed over.
proof fn lemma_skip_words(
    toks: Seq<Seq<char>>,
    i: int,
    words: Seq<Seq<char>>,
    d: Draft,
    done: Seq<WindowModel>,
)
    requires
        0 <= i,
        i + words.len() <= toks.len(),
        forall|j: int| 0 <= j < words.len() ==> toks[i + j] == #[trigger] words[j],
        skipped(words),
    ensures
        parse_from(toks, i, d, done) == parse_from(toks, i + words.len(), d, done),
    decreases words.len(),
{
    if words.len() > 0 {
        let rest = words.drop_first();
        assert forall|j: int| 0 <= j < rest.len() implies toks[i + 1 + j] == #[trigger] rest[j] by {
            assert(toks[i + (j + 1)] == words[j + 1]);
        }
        assert(toks[i] == words[0]);
        assert(!is_field_name(words[0]));
        assert forall|j: int| 0 <= j < rest.len() implies !is_field_name(#[trigger] rest[j]) by {
            assert(rest[j] == words[j + 1]);
        }
        lemma_skip_words(toks, i + 1, rest, d, done);
    }
}

/// Where each field of a record stands among its tokens.
proof fn lemma_record_layout(r: RecordWords)
    ensures
        ({
            let rt = record_tokens(r);
            let h = r.header.len() as int;
            let w = 2 + h;
            let c0 = 4 + h + r.after_tag.len();
            let c = r.class.len() as int;
            let a = c0 + 2 + c + r.title.len();
            let b = a + 1 + r.initial_class.len();
            let e = b + 1 + r.initial_title.len();
            let f = e + 1 + r.pid.len();
            &&& rt.len() == f + 2 + r.after_order.len()
            &&& rt[0] == key_window()
            &&& rt[1] == r.address
            &&& forall|j: int| 0 <= j < h ==> rt[2 + j] == #[trigger] r.header[j]
            &&& rt[w] == key_workspace()
            &&& rt[w + 1] == decimal(r.tag as nat)
            &&& forall|j: int| 0 <= j < r.after_tag.len() ==> rt[w + 2 + j] == #[trigger] r.after_tag[j]
            &&& rt[c0] == key_class()
            &&& forall|j: int| 0 <= j < c ==> rt[c0 + 1 + j] == #[trigger] r.class[j]
            &&& rt[c0 + 1 + c] == key_title()
            &&& forall|j: int| 0 <= j < r.title.len() ==> rt[c0 + 2 + c + j] == #[trigger] r.title[j]
            &&& rt[a] == key_initial_class()
            &&& forall|j: int|
                0 <= j < r.initial_class.len() ==> rt[a + 1 + j] == #[trigger] r.initial_class[j]
            &&& rt[b] == key_initial_title()
            &&& forall|j: int|
                0 <= j < r.initial_title.len() ==> rt[b + 1 + j] == #[trigger] r.initial_title[j]
            &&& rt[e] == key_pid()
            &&& forall|j: int| 0 <= j < r.pid.len() ==> rt[e + 1 + j] == #[trigger] r.pid[j]
            &&& rt[f] == key_focus()
            &&& rt[f + 1] == decimal(r.order as nat)
            &&& forall|j: int|
                0 <= j < r.after_order.len() ==> rt[f + 2 + j] == #[trigger] r.after_order[j]
        }),
{
    let upto_header = seq![key_window(), r.address] + r.header;
    let upto_tag = upto_header + seq![key_workspace(), decimal(r.tag as nat)];
    let upto_after_tag = upto_tag + r.after_tag;
    let upto_class_key = upto_after_tag + seq![key_class()];
    let upto_class = upto_class_key + r.class;
    let upto_title_key = upto_class + seq![key_title()];
    let upto_title = upto_title_key + r.title;
    let upto_ic_key = upto_title + seq![key_initial_class()];
    let upto_ic = upto_ic_key + r.initial_class;
    let upto_it_key = upto_ic + seq![key_initial_title()];
    let upto_it = upto_it_key + r.initial_title;
    let upto_pid_key = upto_it + seq![key_pid()];
    let upto_pid = upto_pid_key + r.pid;
    let upto_order = upto_pid + seq![key_focus(), decimal(r.order as nat)];
    let rt = upto_order + r.after_order;
    assert(rt == record_tokens(r));
    let h = r.header.len() as int;
    let w = 2 + h;
    let c0 = 4 + h + r.after_tag.len();
    let c = r.class.len() as int;
    let a = c0 + 2 + c + r.title.len();
    let b = a + 1 + r.initial_class.len();
    let e = b + 1 + r.initial_title.len();
    let f = e + 1 + r.pid.len();
    assert forall|j: int| 0 <= j < h implies rt[2 + j] == #[trigger] r.header[j] by {
        assert(upto_header[2 + j] == r.header[j]);
    }
    assert forall|j: int| 0 <= j < r.after_tag.len() implies rt[w + 2 + j]
        == #[trigger] r.after_tag[j] by {
        assert(upto_after_tag[w + 2 + j] == r.after_tag[j]);
    }
    assert forall|j: int| 0 <= j < c implies rt[c0 + 1 + j] == #[trigger] r.class[j] by {
        assert(upto_class[c0 + 1 + j] == r.class[j]);
    }
    assert forall|j: int| 0 <= j < r.title.len() implies rt[c0 + 2 + c + j]
        == #[trigger] r.title[j] by {
        assert(upto_title[c0 + 2 + c + j] == r.title[j]);
    }
    assert forall|j: int| 0 <= j < r.initial_class.len() implies rt[a + 1 + j]
        == #[trigger] r.initial_class[j] by {
        assert(upto_ic[a + 1 + j] == r.initial_class[j]);
    }
    assert forall|j: int| 0 <= j < r.initial_title.len() implies rt[b + 1 + j]
        == #[trigger] r.initial_title[j] by {
        assert(upto_it[b + 1 + j] == r.initial_title[j]);
    }
    assert forall|j: int| 0 <= j < r.pid.len() implies rt[e + 1 + j] == #[trigger] r.pid[j] by {
        assert(upto_pid[e + 1 + j] == r.pid[j]);
    }
    assert forall|j: int| 0 <= j < r.after_order.len() implies rt[f + 2 + j]
        == #[trigger] r.after_order[j] by {
    }
    assert(upto_header[0] == key_window());
    assert(upto_header[1] == r.address);
    assert(upto_tag[w] == key_workspace());
    assert(upto_tag[w + 1] == decimal(r.tag as nat));
    assert(upto_class_key[c0] == key_class());
    assert(upto_title_key[c0 + 1 + c] == key_title());
    assert(upto_ic_key[a] == key_initial_class());
    assert(upto_it_key[b] == key_initial_title());
    assert(upto_pid_key[e] == key_pid());
    assert(upto_order[f] == key_focus());
    assert(upto_order[f + 1] == decimal(r.order as nat));
}

proof fn lemma_step_window(toks: Seq<Seq<char>>, i: int, d: Draft, done: Seq<WindowModel>)
    requires
        0 <= i,
        i + 1 < toks.len(),
        toks[i] == key_window(),
        !is_field_name(toks[i + 1]),
    ensures
        parse_from(toks, i, d, done) == parse_from(
            toks,
            i + 2,
            Draft { address: Some(bare_address(toks[i + 1])), ..d },
            done,
        ),
{
    lemma_field_names();
    let d1 = Draft { address: Some(bare_address(toks[i + 1])), ..d };
    assert(parse_from(toks, i, d, done) == parse_from(toks, i + 1, d1, done));
    assert(parse_from(toks, i + 1, d1, done) == parse_from(toks, i + 2, d1, done));
}

proof fn lemma_step_workspace(
    toks: Seq<Seq<char>>,
    i: int,
    d: Draft,
    done: Seq<WindowModel>,
    n: usize,
)
    requires
        0 <= i,
        i + 1 < toks.len(),
        toks[i] == key_workspace(),
        toks[i + 1] == decimal(n as nat),
    ensures
        parse_from(toks, i, d, done) == parse_from(toks, i + 2, Draft { tag: Some(n), ..d }, done),
{
    lemma_field_names();
    lemma_decimal_reads_back(n);
    let d1 = Draft { tag: Some(n), ..d };
    assert(parse_from(toks, i, d, done) == parse_from(toks, i + 1, d1, done));
    assert(parse_from(toks, i + 1, d1, done) == parse_from(toks, i + 2, d1, done));
}

proof fn lemma_step_class(
    toks: Seq<Seq<char>>,
    i: int,
    words: Seq<Seq<char>>,
    d: Draft,
    done: Seq<WindowModel>,
)
    requires
        0 <= i,
        i + 1 + words.len() < toks.len(),
        toks[i] == key_class(),
        forall|j: int| 0 <= j < words.len() ==> toks[i + 1 + j] == #[trigger] words[j],
        forall|j: int| 0 <= j < words.len() ==> !contains(#[trigger] words[j], key_title()),
        toks[i + 1 + words.len()] == key_title(),
    ensures
        parse_from(toks, i, d, done) == parse_from(
            toks,
            i + 1 + words.len(),
            Draft { class: join(words), ..d },
            done,
        ),
{
    lemma_field_names();
    lemma_read_words(toks, i + 1, words, key_title());
}

proof fn lemma_step_title(
    toks: Seq<Seq<char>>,
    i: int,
    words: Seq<Seq<char>>,
    d: Draft,
    done: Seq<WindowModel>,
)
    requires
        0 <= i,
        i + 1 + words.len() < toks.len(),
        toks[i] == key_title(),
        forall|j: int| 0 <= j < words.len() ==> toks[i + 1 + j] == #[trigger] words[j],
        forall|j: int| 0 <= j < words.len() ==> !contains(#[trigger] words[j], key_initial_class()),
        toks[i + 1 + words.len()] == key_initial_class(),
    ensures
        parse_from(toks, i, d, done) == parse_from(
            toks,
            i + 2 + words.len(),
            Draft { info: clean_info(join(words)), ..d },
            done,
        ),
{
    lemma_field_names();
    lemma_read_words(toks, i + 1, words, key_initial_class());
    let d1 = Draft { info: clean_info(join(words)), ..d };
    assert(parse_from(toks, i, d, done) == parse_from(toks, i + 1 + words.len(), d1, done));
}

proof fn lemma_step_initial_title(
    toks: Seq<Seq<char>>,
    i: int,
    words: Seq<Seq<char>>,
    d: Draft,
    done: Seq<WindowModel>,
)
    requires
        0 <= i,
        i + 1 + words.len() < toks.len(),
        toks[i] == key_initial_title(),
        forall|j: int| 0 <= j < words.len() ==> toks[i + 1 + j] == #[trigger] words[j],
        forall|j: int| 0 <= j < words.len() ==> !contains(#[trigger] words[j], key_pid()),
        toks[i + 1 + words.len()] == key_pid(),
    ensures
        parse_from(toks, i, d, done) == parse_from(
            toks,
            i + 2 + words.len(),
            Draft { name: clean_name(join(words)), ..d },
            done,
        ),
{
    lemma_field_names();
    lemma_read_words(toks, i + 1, words, key_pid());
    let d1 = Draft { name: clean_name(join(words)), ..d };
    assert(parse_from(toks, i, d, done) == parse_from(toks, i + 1 + words.len(), d1, done));
}

proof fn lemma_step_initial_class(toks: Seq<Seq<char>>, i: int, d: Draft, done: Seq<WindowModel>)
    requires
        0 <= i < toks.len(),
        toks[i] == key_initial_class(),
    ensures
        parse_from(toks, i, d, done) == parse_from(toks, i + 1, d, done),
{
    lemma_field_names();
}

proof fn lemma_step_focus(
    toks: Seq<Seq<char>>,
    i: int,
    d: Draft,
    done: Seq<WindowModel>,
    n: usize,
)
    requires
        0 <= i,
        i + 1 < toks.len(),
        toks[i] == key_focus(),
        toks[i + 1] == decimal(n as nat),
        d.address is Some,
        d.tag is Some,
    ensures
        parse_from(toks, i, d, done) == parse_from(
            toks,
            i + 2,
            empty_draft(),
            done.push(
                WindowModel {
                    name: d.name,
                    info: d.info,
                    address: d.address->0,
                    class: d.class,
                    tag: d.tag->0,
                    order: n,
                },
            ),
        ),
{
    lemma_field_names();
    lemma_decimal_reads_back(n);
    let w = WindowModel {
        name: d.name,
        info: d.info,
        address: d.address->0,
        class: d.class,
        tag: d.tag->0,
        order: n,
    };
    assert(parse_from(toks, i, d, done) == parse_from(toks, i + 1, empty_draft(), done.push(w)));
    assert(parse_from(toks, i + 1, empty_draft(), done.push(w)) == parse_from(
        toks,
        i + 2,
        empty_draft(),
        done.push(w),
    ));
}

/// Reading a well-formed record from token `p` on adds its window to the
/// records read so far and leaves the parser after it, with no record open.
#[verifier::rlimit(100)]
proof fn lemma_read_record(
    toks: Seq<Seq<char>>,
    p: int,
    r: RecordWords,
    d: Draft,
    done: Seq<WindowModel>,
)
    requires
        0 <= p,
        p + record_tokens(r).len() <= toks.len(),
        forall|k: int|
            0 <= k < record_tokens(r).len() ==> toks[p + k] == #[trigger] record_tokens(r)[k],
        well_formed(r),
    ensures
        parse_from(toks, p, d, done) == parse_from(
            toks,
            p + record_tokens(r).len(),
            empty_draft(),
            done.push(model_of(r)),
        ),
{
    lemma_record_layout(r);
    let rt = record_tokens(r);
    let h = r.header.len() as int;
    let w = 2 + h;
    let c0 = 4 + h + r.after_tag.len();
    let c = r.class.len() as int;
    let a = c0 + 2 + c + r.title.len();
    let b = a + 1 + r.initial_class.len();
    let e = b + 1 + r.initial_title.len();
    let f = e + 1 + r.pid.len();
    assert(toks[p] == rt[0]);
    assert(toks[p + 1] == rt[1]);
    assert(toks[p + w] == rt[w]);
    assert(toks[p + w + 1] == rt[w + 1]);
    assert(toks[p + c0] == rt[c0]);
    assert(toks[p + c0 + 1 + c] == rt[c0 + 1 + c]);
    assert(toks[p + a] == rt[a]);
    assert(toks[p + b] == rt[b]);
    assert(toks[p + e] == rt[e]);
    assert(toks[p + f] == rt[f]);
    assert(toks[p + f + 1] == rt[f + 1]);

    lemma_step_window(toks, p, d, done);
    let d1 = Draft { address: Some(r.address), ..d };
    assert forall|j: int| 0 <= j < h implies toks[p + 2 + j] == #[trigger] r.header[j] by {
        assert(toks[p + (2 + j)] == rt[2 + j]);
    }
    lemma_skip_words(toks, p + 2, r.header, d1, done);
    lemma_step_workspace(toks, p + w, d1, done, r.tag);
    let d2 = Draft { tag: Some(r.tag), ..d1 };
    assert forall|j: int| 0 <= j < r.after_tag.len() implies toks[p + w + 2 + j]
        == #[trigger] r.after_tag[j] by {
        assert(toks[p + (w + 2 + j)] == rt[w + 2 + j]);
    }
    lemma_skip_words(toks, p + w + 2, r.after_tag, d2, done);

    assert forall|j: int| 0 <= j < c implies toks[p + c0 + 1 + j] == #[trigger] r.class[j] by {
        assert(toks[p + (c0 + 1 + j)] == rt[c0 + 1 + j]);
    }
    lemma_step_class(toks, p + c0, r.class, d2, done);
    let d3 = Draft { class: join(r.class), ..d2 };

    assert forall|j: int| 0 <= j < r.title.len() implies toks[p + c0 + 1 + c + 1 + j]
        == #[trigger] r.title[j] by {
        assert(toks[p + (c0 + 2 + c + j)] == rt[c0 + 2 + c + j]);
    }
    lemma_step_title(toks, p + c0 + 1 + c, r.title, d3, done);
    let d4 = Draft { info: clean_info(join(r.title)), ..d3 };

    assert forall|j: int| 0 <= j < r.initial_class.len() implies toks[p + a + 1 + j]
        == #[trigger] r.initial_class[j] by {
        assert(toks[p + (a + 1 + j)] == rt[a + 1 + j]);
    }
    lemma_skip_words(toks, p + a + 1, r.initial_class, d4, done);

    assert forall|j: int| 0 <= j < r.initial_title.len() implies toks[p + b + 1 + j]
        == #[trigger] r.initial_title[j] by {
        assert(toks[p + (b + 1 + j)] == rt[b + 1 + j]);
    }
    lemma_step_initial_title(toks, p + b, r.initial_title, d4, done);
    let d5 = Draft { name: clean_name(join(r.initial_title)), ..d4 };

    assert forall|j: int| 0 <= j < r.pid.len() implies toks[p + e + 1 + j] == #[trigger] r.pid[j] by {
        assert(toks[p + (e + 1 + j)] == rt[e + 1 + j]);
    }
    lemma_skip_words(toks, p + e + 1, r.pid, d5, done);
    lemma_step_focus(toks, p + f, d5, done, r.order);
    let w_model = WindowModel {
        name: d5.name,
        info: d5.info,
        address: r.address,
        class: d5.class,
        tag: r.tag,
        order: r.order,
    };
    assert(w_model == model_of(r));
    assert forall|j: int| 0 <= j < r.after_order.len() implies toks[p + f + 2 + j]
        == #[trigger] r.after_order[j] by {
        assert(toks[p + (f + 2 + j)] == rt[f + 2 + j]);
    }
    lemma_skip_words(toks, p + f + 2, r.after_order, empty_draft(), done.push(w_model));
}

/// The windows that records describe, in the same order.
pub open spec fn models_of(rs: Seq<RecordWords>) -> Seq<WindowModel> {
    rs.map_values(|r: RecordWords| model_of(r))
}

proof fn lemma_read_records(
    toks: Seq<Seq<char>>,
    p: int,
    rs: Seq<RecordWords>,
    done: Seq<WindowModel>,
)
    requires
        0 <= p,
        p + records_tokens(rs).len() <= toks.len(),
        forall|k: int|
            0 <= k < records_tokens(rs).len() ==> toks[p + k] == #[trigger] records_tokens(rs)[k],
        forall|i: int| 0 <= i < rs.len() ==> well_formed(#[trigger] rs[i]),
    ensures
        parse_from(toks, p, empty_draft(), done) == parse_from(
            toks,
            p + records_tokens(rs).len(),
            empty_draft(),
            done + models_of(rs),
        ),
    decreases rs.len(),
{
    if rs.len() == 0 {
        assert(done + models_of(rs) == done);
    } else {
        let init = rs.drop_last();
        let last = rs.last();
        let ti = records_tokens(init);
        let rt = record_tokens(last);
        assert(records_tokens(rs) == ti + rt);
        assert forall|k: int| 0 <= k < ti.len() implies toks[p + k] == #[trigger] ti[k] by {
            assert(records_tokens(rs)[k] == ti[k]);
        }
        assert forall|i: int| 0 <= i < init.len() implies well_formed(#[trigger] init[i]) by {
            assert(init[i] == rs[i]);
        }
        lemma_read_records(toks, p, init, done);
        assert forall|k: int| 0 <= k < rt.len() implies toks[p + ti.len() + k] == #[trigger] rt[k] by {
            assert(records_tokens(rs)[ti.len() + k] == rt[k]);
            assert(toks[p + (ti.len() + k)] == records_tokens(rs)[ti.len() + k]);
        }
        assert(well_formed(rs[rs.len() - 1]));
        lemma_read_record(toks, p + ti.len(), last, empty_draft(), done + models_of(init));
        assert((done + models_of(init)).push(model_of(last)) == done + models_of(rs));
    }
}

/// Records laid out in the compositor's format read back as one window per
/// record, in the order written: address, workspace, class (its words joined
/// by single spaces) and order as written, the title and name cleaned only as
/// the parser cleans them. Sorted by order (the same windows, rearranged),
/// they are what a response made of these tokens yields: as many windows as
/// records.
pub proof fn lemma_round_trip(rs: Seq<RecordWords>)
    requires
        forall|i: int| 0 <= i < rs.len() ==> well_formed(#[trigger] rs[i]),
    ensures
        records_of_tokens(records_tokens(rs)) == Ok::<Seq<WindowModel>, ProtocolError>(models_of(rs)),
        sort_by_order(models_of(rs)).len() == rs.len(),
        sort_by_order(models_of(rs)).to_multiset() == models_of(rs).to_multiset(),
        sorted_by_order(sort_by_order(models_of(rs))),
{
    let toks = records_tokens(rs);
    lemma_read_records(toks, 0, rs, seq![]);
    assert(seq![] + models_of(rs) == models_of(rs));
    lemma_sort_sorted(models_of(rs));
}

/// A token as it can stand in a response: not empty, and free of whitespace.
pub open spec fn is_word(w: Seq<char>) -> bool {
    w.len() > 0 && forall|j: int| 0 <= j < w.len() ==> !is_space(#[trigger] w[j])
}

/// Every token of a record can stand in a response.
pub open spec fn all_words(r: RecordWords) -> bool {
    &&& is_word(r.address)
    &&& forall|j: int| 0 <= j < r.header.len() ==> is_word(#[trigger] r.header[j])
    &&& forall|j: int| 0 <= j < r.after_tag.len() ==> is_word(#[trigger] r.after_tag[j])
    &&& forall|j: int| 0 <= j < r.after_order.len() ==> is_word(#[trigger] r.after_order[j])
    &&& forall|j: int| 0 <= j < r.class.len() ==> is_word(#[trigger] r.class[j])
    &&& forall|j: int| 0 <= j < r.title.len() ==> is_word(#[trigger] r.title[j])
    &&& forall|j: int| 0 <= j < r.initial_class.len() ==> is_word(#[trigger] r.initial_class[j])
    &&& forall|j: int| 0 <= j < r.initial_title.len() ==> is_word(#[trigger] r.initial_title[j])
    &&& forall|j: int| 0 <= j < r.pid.len() ==> is_word(#[trigger] r.pid[j])
}

/// A run of whitespace that separates tokens: not empty, whitespace only.
pub open spec fn is_gap(g: Seq<char>) -> bool {
    g.len() > 0 && forall|j: int| 0 <= j < g.len() ==> is_space(#[trigger] g[j])
}

/// Tokens written out, each followed by its gap.
pub open spec fn spaced(toks: Seq<Seq<char>>, gaps: Seq<Seq<char>>) -> Seq<char>
    decreases toks.len(),
{
    if toks.len() == 0 || gaps.len() == 0 {
        seq![]
    } else {
        toks[0] + gaps[0] + spaced(toks.drop_first(), gaps.drop_first())
    }
}

/// A `clients` response that lists the records `rs`, each token followed by
/// its gap of whitespace (a space, a tab, a line break, or several).
pub open spec fn response_of(rs: Seq<RecordWords>, gaps: Seq<Seq<char>>) -> Seq<char> {
    spaced(records_tokens(rs), gaps)
}

proof fn lemma_skip_gap(s: Seq<char>, i: int, g: Seq<char>)
    requires
        0 <= i,
        i + g.len() <= s.len(),
        forall|j: int| 0 <= j < g.len() ==> s[i + j] == #[trigger] g[j],
        forall|j: int| 0 <= j < g.len() ==> is_space(#[trigger] g[j]),
    ensures
        tokens_from(s, i, seq![]) == tokens_from(s, i + g.len(), seq![]),
    decreases g.len(),
{
    if g.len() > 0 {
        let rest = g.drop_first();
        assert(s[i] == g[0]);
        assert(is_space(g[0]));
        assert forall|j: int| 0 <= j < rest.len() implies s[i + 1 + j] == #[trigger] rest[j] by {
            assert(s[i + (j + 1)] == g[j + 1]);
        }
        assert forall|j: int| 0 <= j < rest.len() implies is_space(#[trigger] rest[j]) by {
            assert(rest[j] == g[j + 1]);
        }
        lemma_skip_gap(s, i + 1, rest);
        assert(seq![] + tokens_from(s, i + 1, seq![]) == tokens_from(s, i + 1, seq![]));
    }
}

proof fn lemma_read_word(s: Seq<char>, i: int, cur: Seq<char>, w: Seq<char>)
    requires
        0 <= i,
        i + w.len() <= s.len(),
        forall|j: int| 0 <= j < w.len() ==> s[i + j] == #[trigger] w[j],
        forall|j: int| 0 <= j < w.len() ==> !is_space(#[trigger] w[j]),
    ensures
        tokens_from(s, i, cur) == tokens_from(s, i + w.len(), cur + w),
    decreases w.len(),
{
    if w.len() == 0 {
        assert(cur + w == cur);
    } else {
        let rest = w.drop_first();
        assert(s[i] == w[0]);
        assert(!is_space(w[0]));
        assert forall|j: int| 0 <= j < rest.len() implies s[i + 1 + j] == #[trigger] rest[j] by {
            assert(s[i + (j + 1)] == w[j + 1]);
        }
        assert forall|j: int| 0 <= j < rest.len() implies !is_space(#[trigger] rest[j]) by {
            assert(rest[j] == w[j + 1]);
        }
        lemma_read_word(s, i + 1, cur.push(w[0]), rest);
        assert(cur.push(w[0]) + rest == cur + w);
    }
}

proof fn lemma_spaced_tokens(s: Seq<char>, i: int, toks: Seq<Seq<char>>, gaps: Seq<Seq<char>>)
    requires
        0 <= i,
        gaps.len() == toks.len(),
        i + spaced(toks, gaps).len() == s.len(),
        forall|k: int|
            0 <= k < spaced(toks, gaps).len() ==> s[i + k] == #[trigger] spaced(toks, gaps)[k],
        forall|k: int| 0 <= k < toks.len() ==> is_word(#[trigger] toks[k]),
        forall|k: int| 0 <= k < gaps.len() ==> is_gap(#[trigger] gaps[k]),
    ensures
        tokens_from(s, i, seq![]) == toks,
    decreases toks.len(),
{
    if toks.len() > 0 {
        let w = toks[0];
        let g = gaps[0];
        let rest = toks.drop_first();
        let rest_gaps = gaps.drop_first();
        let tail = spaced(rest, rest_gaps);
        let l = spaced(toks, gaps);
        assert(is_word(toks[0]));
        assert(is_gap(gaps[0]));
        assert(l == w + g + tail);
        assert forall|j: int| 0 <= j < w.len() implies s[i + j] == #[trigger] w[j] by {
            assert(l[j] == w[j]);
        }
        lemma_read_word(s, i, seq![], w);
        assert(seq![] + w == w);
        assert(l[w.len() as int] == g[0]);
        assert(s[i + w.len()] == g[0]);
        assert(is_space(g[0]));
        assert(tokens_from(s, i + w.len(), w) == seq![w] + tokens_from(s, i + w.len() + 1, seq![]));
        let g1 = g.drop_first();
        assert forall|j: int| 0 <= j < g1.len() implies s[i + w.len() + 1 + j] == #[trigger] g1[j] by {
            assert(l[w.len() + 1 + j] == g[1 + j]);
            assert(s[i + (w.len() + 1 + j)] == l[w.len() + 1 + j]);
        }
        assert forall|j: int| 0 <= j < g1.len() implies is_space(#[trigger] g1[j]) by {
            assert(g1[j] == g[j + 1]);
        }
        lemma_skip_gap(s, i + w.len() + 1, g1);
        let next = i + w.len() + g.len();
        assert forall|k: int| 0 <= k < tail.len() implies s[next + k] == #[trigger] tail[k] by {
            assert(l[w.len() + g.len() + k] == tail[k]);
            assert(s[i + (w.len() + g.len() + k)] == l[w.len() + g.len() + k]);
        }
        assert forall|k: int| 0 <= k < rest.len() implies is_word(#[trigger] rest[k]) by {
            assert(rest[k] == toks[k + 1]);
        }
        assert forall|k: int| 0 <= k < rest_gaps.len() implies is_gap(#[trigger] rest_gaps[k]) by {
            assert(rest_gaps[k] == gaps[k + 1]);
        }
        lemma_spaced_tokens(s, next, rest, rest_gaps);
        assert(seq![w] + rest == toks);
    } else {
        assert(tokens_from(s, i, seq![]) == Seq::<Seq<char>>::empty());
    }
}

proof fn lemma_field_names_are_words()
    ensures
        is_word(key_window()),
        is_word(key_workspace()),
        is_word(key_class()),
        is_word(key_title()),
        is_word(key_initial_class()),
        is_word(key_initial_title()),
        is_word(key_pid()),
        is_word(key_focus()),
{
    reveal_strlit("workspace:");
    reveal_strlit("title:");
    reveal_strlit("initialClass:");
    reveal_strlit("initialTitle:");
    reveal_strlit("pid:");
    reveal_strlit("focusHistoryID:");
    reveal_strlit("Window");
    reveal_strlit("class:");
}

proof fn lemma_decimal_is_word(n: nat)
    ensures
        is_word(decimal(n)),
{
    lemma_decimal(n);
    assert forall|j: int| 0 <= j < decimal(n).len() implies !is_space(#[trigger] decimal(n)[j]) by {
        assert('0' <= decimal(n)[j] <= '9');
    }
}

proof fn lemma_record_words(r: RecordWords)
    requires
        all_words(r),
    ensures
        forall|k: int| 0 <= k < record_tokens(r).len() ==> is_word(#[trigger] record_tokens(r)[k]),
{
    lemma_record_layout(r);
    lemma_field_names_are_words();
    lemma_decimal_is_word(r.tag as nat);
    lemma_decimal_is_word(r.order as nat);
    let rt = record_tokens(r);
    let h = r.header.len() as int;
    let w = 2 + h;
    let c0 = 4 + h + r.after_tag.len();
    let c = r.class.len() as int;
    let a = c0 + 2 + c + r.title.len();
    let b = a + 1 + r.initial_class.len();
    let e = b + 1 + r.initial_title.len();
    let f = e + 1 + r.pid.len();
    assert forall|k: int| 0 <= k < rt.len() implies is_word(#[trigger] rt[k]) by {
        if 2 <= k < w {
            assert(rt[2 + (k - 2)] == r.header[k - 2]);
        } else if w + 2 <= k < c0 {
            assert(rt[w + 2 + (k - w - 2)] == r.after_tag[k - w - 2]);
        } else if c0 + 1 <= k < c0 + 1 + c {
            assert(rt[c0 + 1 + (k - c0 - 1)] == r.class[k - c0 - 1]);
        } else if c0 + 2 + c <= k < a {
            assert(rt[c0 + 2 + c + (k - c0 - 2 - c)] == r.title[k - c0 - 2 - c]);
        } else if a + 1 <= k < b {
            assert(rt[a + 1 + (k - a - 1)] == r.initial_class[k - a - 1]);
        } else if b + 1 <= k < e {
            assert(rt[b + 1 + (k - b - 1)] == r.initial_title[k - b - 1]);
        } else if e + 1 <= k < f {
            assert(rt[e + 1 + (k - e - 1)] == r.pid[k - e - 1]);
        } else if f + 2 <= k {
            assert(rt[f + 2 + (k - f - 2)] == r.after_order[k - f - 2]);
        }
    }
}

proof fn lemma_records_words(rs: Seq<RecordWords>)
    requires
        forall|i: int| 0 <= i < rs.len() ==> all_words(#[trigger] rs[i]),
    ensures
        forall|k: int|
            0 <= k < records_tokens(rs).len() ==> is_word(#[trigger] records_tokens(rs)[k]),
    decreases rs.len(),
{
    if rs.len() > 0 {
        let init = rs.drop_last();
        assert forall|i: int| 0 <= i < init.len() implies all_words(#[trigger] init[i]) by {
            assert(init[i] == rs[i]);
        }
        lemma_records_words(init);
        assert(all_words(rs[rs.len() - 1]));
        lemma_record_words(rs.last());
        let ti = records_tokens(init);
        let rt = record_tokens(rs.last());
        assert(records_tokens(rs) == ti + rt);
        assert forall|k: int| 0 <= k < records_tokens(rs).len() implies is_word(
            #[trigger] records_tokens(rs)[k],
        ) by {
            if k < ti.len() {
                assert(records_tokens(rs)[k] == ti[k]);
            } else {
                assert(records_tokens(rs)[k] == rt[k - ti.len()]);
            }
        }
    }
}

/// A `clients` response that lists well-formed records, each token followed
/// by whitespace, yields one window per record, sorted by ascending order:
/// address, workspace, class and order as written, title and name cleaned only
/// as the parser cleans them.
pub proof fn lemma_response_round_trip(rs: Seq<RecordWords>, gaps: Seq<Seq<char>>)
    requires
        forall|i: int| 0 <= i < rs.len() ==> well_formed(#[trigger] rs[i]),
        forall|i: int| 0 <= i < rs.len() ==> all_words(#[trigger] rs[i]),
        gaps.len() == records_tokens(rs).len(),
        forall|k: int| 0 <= k < gaps.len() ==> is_gap(#[trigger] gaps[k]),
    ensures
        parse_clients(response_of(rs, gaps)) == Ok::<Seq<WindowModel>, ProtocolError>(
            sort_by_order(models_of(rs)),
        ),
        sort_by_order(models_of(rs)).len() == rs.len(),
        sort_by_order(models_of(rs)).to_multiset() == models_of(rs).to_multiset(),
        sorted_by_order(sort_by_order(models_of(rs))),
{
    let toks = records_tokens(rs);
    let text = response_of(rs, gaps);
    lemma_records_words(rs);
    lemma_spaced_tokens(text, 0, toks, gaps);
    lemma_round_trip(rs);
}

} // verus!
