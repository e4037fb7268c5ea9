//! What a slicing run leaves behind to resume from.
//!
//! ```text
//! config <hash of the run's parameters>
//! channels <c0,c1,...>
//! experts <layer> <e0,e1,...>
//! ```
//!
//! The file grows by whole lines; what a crash leaves of the last line is ignored.

use crate::hash::fnv1a;
use crate::hash::fnv_spec;
use crate::names::same_text;
use crate::numtext::csv;
use crate::numtext::csv_list;
use crate::numtext::hex;
use crate::numtext::join_csv;
use crate::numtext::law_csv_reads_back;
use crate::numtext::law_decimal_reads_back;
use crate::numtext::lemma_csv_is_a_word;
use crate::numtext::lemma_decimal_is_a_word;
use crate::numtext::lemma_words_one;
use crate::numtext::lemma_words_push;
use crate::numtext::parse_csv;
use crate::numtext::parse_number;
use crate::numtext::parsed;
use crate::numtext::piece_after;
use crate::numtext::pieces_ended;
use crate::numtext::push_hex;
use crate::numtext::split_on;
use crate::numtext::texts;
use crate::numtext::words;
use crate::numtext::words_of;
use crate::slice_args::OptionsView;
use crate::slice_args::SliceOptions;
use crate::text::decimal;
use crate::text::push_decimal;
use crate::text::push_text;
use crate::unicode::chars_of;
use crate::unicode::lossy;
use crate::unicode::utf8_lossy;
use crate::unicode::white_space;
use vstd::prelude::*;
use vstd::utf8::encode_utf8;

verus! {

/// Lists by layer; a later list of a layer replaces an earlier one.
pub struct LayerMap<T> {
    pub rows: Vec<(usize, Vec<T>)>,
}

/// The lists after the first entries.
pub open spec fn rows_map<T>(rows: Seq<(usize, Vec<T>)>) -> Map<nat, Seq<T>>
    decreases rows.len(),
{
    if rows.len() == 0 {
        Map::empty()
    } else {
        rows_map(rows.drop_last()).insert(rows.last().0 as nat, rows.last().1@)
    }
}

impl<T> View for LayerMap<T> {
    type V = Map<nat, Seq<T>>;

    open spec fn view(&self) -> Map<nat, Seq<T>> {
        rows_map(self.rows@)
    }
}

impl<T> LayerMap<T> {
    /// No lists.
    pub fn new() -> (m: LayerMap<T>)
        ensures
            m@ == Map::<nat, Seq<T>>::empty(),
    {
        LayerMap { rows: Vec::new() }
    }

    /// Sets the list of a layer.
    pub fn put(&mut self, layer: usize, list: Vec<T>)
        ensures
            final(self)@ == old(self)@.insert(layer as nat, list@),
    {
        let ghost before = self.rows@;
        self.rows.push((layer, list));
        proof {
            assert(self.rows@.drop_last() =~= before);
        }
    }

    /// The list of a layer.
    pub fn get(&self, layer: usize) -> (list: Option<&Vec<T>>)
        ensures
            match list {
                Some(v) => self@.contains_key(layer as nat) && self@[layer as nat] == v@,
                None => !self@.contains_key(layer as nat),
            },
    {
        let mut i: usize = self.rows.len();
        proof {
            assert(self.rows@.take(i as int) =~= self.rows@);
        }
        while i > 0
            invariant
                i <= self.rows@.len(),
                self@.contains_key(layer as nat) == rows_map(
                    self.rows@.take(i as int),
                ).contains_key(layer as nat),
                self@.contains_key(layer as nat) ==> self@[layer as nat] == rows_map(
                    self.rows@.take(i as int),
                )[layer as nat],
            decreases i,
        {
            proof {
                assert(self.rows@.take(i as int).drop_last() =~= self.rows@.take(i - 1));
                assert(self.rows@.take(i as int).last() == self.rows@[i - 1]);
            }
            if self.rows[i - 1].0 == layer {
                return Some(&self.rows[i - 1].1);
            }
            i -= 1;
        }
        None
    }
}

/// What a checkpoint says of a run.
pub ghost struct ResumeView {
    /// It belongs to this run.
    pub config_ok: bool,
    pub channels: Option<Seq<usize>>,
    pub experts: Map<nat, Seq<usize>>,
}

/// Nothing to resume from.
pub open spec fn nothing() -> ResumeView {
    ResumeView { config_ok: false, channels: None, experts: Map::empty() }
}

/// What a line adds.
pub open spec fn line_read(s: ResumeView, line: Seq<char>, want: Seq<char>) -> ResumeView {
    let w = words(line);
    if w.len() == 0 {
        s
    } else if w[0] == "config"@ {
        ResumeView { config_ok: w.len() > 1 && w[1] == want, ..s }
    } else if w[0] == "channels"@ {
        ResumeView {
            channels: if w.len() > 1 {
                csv_list(w[1])
            } else {
                None
            },
            ..s
        }
    } else if w[0] == "experts"@ && w.len() > 2 {
        match (parsed(w[1], usize::MAX as nat), csv_list(w[2])) {
            (Some(l), Some(v)) => ResumeView { experts: s.experts.insert(l, v), ..s },
            _ => s,
        }
    } else {
        s
    }
}

/// What the first `n` lines say.
pub open spec fn lines_read(lines: Seq<Seq<char>>, want: Seq<char>, n: int) -> ResumeView
    decreases n,
{
    if n <= 0 {
        nothing()
    } else {
        line_read(lines_read(lines, want, n - 1), lines[n - 1], want)
    }
}

/// What a checkpoint's text says: its complete lines count, what stands behind the
/// last line feed does not.
pub open spec fn text_read(t: Seq<char>, want: Seq<char>) -> ResumeView {
    let lines = pieces_ended(t, '\n');
    lines_read(lines, want, lines.len() as int)
}

/// What a run resumes from: what the checkpoint says where it belongs to this run,
/// otherwise nothing.
pub open spec fn resumed(bytes: Option<Seq<u8>>, want: Seq<char>) -> ResumeView {
    match bytes {
        None => nothing(),
        Some(b) => {
            let s = text_read(lossy(b), want);
            if s.config_ok {
                s
            } else {
                nothing()
            }
        },
    }
}

/// The mark of a run: the hash of its parameters in hexadecimal.
pub open spec fn run_mark(key: Seq<char>) -> Seq<char> {
    hex(fnv_spec(encode_utf8(key)) as nat, 16)
}

/// The mark of a run.
pub fn mark_of(key: &str) -> (mark: String)
    ensures
        mark@ == run_mark(key@),
{
    let mut out: String = String::new();
    push_hex(&mut out, fnv1a(key), 16);
    proof {
        assert(out@ =~= run_mark(key@));
    }
    out
}

/// What a run resumes from.
pub struct SliceCkpt {
    pub config_ok: bool,
    pub channels: Option<Vec<usize>>,
    pub experts: LayerMap<usize>,
}

impl View for SliceCkpt {
    type V = ResumeView;

    open spec fn view(&self) -> ResumeView {
        ResumeView {
            config_ok: self.config_ok,
            channels: match self.channels {
                Some(c) => Some(c@),
                None => None,
            },
            experts: self.experts@,
        }
    }
}

impl SliceCkpt {
    fn empty() -> (s: SliceCkpt)
        ensures
            s@ == nothing(),
    {
        SliceCkpt { config_ok: false, channels: None, experts: LayerMap::new() }
    }

    fn read_line(&mut self, line: &[char], want: &str)
        ensures
            final(self)@ == line_read(old(self)@, line@, want@),
    {
        let w: Vec<Vec<char>> = words_of(line);
        let ghost ws = texts(w@);
        let n: usize = w.len();
        if n == 0 {
            return;
        }
        proof {
            assert(forall|i: int| 0 <= i < n ==> #[trigger] ws[i] == w@[i]@);
        }
        if same_text(w[0].as_slice(), "config") {
            self.config_ok = n > 1 && same_text(w[1].as_slice(), want);
        } else if same_text(w[0].as_slice(), "channels") {
            self.channels = if n > 1 {
                parse_csv(w[1].as_slice())
            } else {
                None
            };
        } else if same_text(w[0].as_slice(), "experts") && n > 2 {
            let layer: Option<u64> = parse_number(w[1].as_slice(), usize::MAX as u64);
            let list: Option<Vec<usize>> = parse_csv(w[2].as_slice());
            match (layer, list) {
                (Some(l), Some(v)) => {
                    self.experts.put(l as usize, v);
                },
                _ => {},
            }
        }
    }

    /// Reads a checkpoint, if there is one, for the run with the given mark. One that
    /// belongs to another run counts as none.
    pub fn open(bytes: Option<&[u8]>, want: &str) -> (s: SliceCkpt)
        ensures
            s@ == resumed(
                match bytes {
                    Some(b) => Some(b@),
                    None => None,
                },
                want@,
            ),
    {
        let mut s: SliceCkpt = SliceCkpt::empty();
        match bytes {
            None => s,
            Some(b) => {
                let text: String = utf8_lossy(b);
                let t: Vec<char> = chars_of(text.as_str());
                let pieces: Vec<Vec<char>> = split_on(t.as_slice(), '\n');
                let ghost lines = pieces_ended(t@, '\n');
                proof {
                    assert(texts(pieces@) == lines.push(piece_after(t@, '\n')));
                    assert(pieces@.len() == lines.len() + 1);
                }
                let n: usize = pieces.len() - 1;
                for i in 0..n
                    invariant
                        n == pieces@.len() - 1,
                        lines.len() == n,
                        texts(pieces@) == lines.push(piece_after(t@, '\n')),
                        s@ == lines_read(lines, want@, i as int),
                {
                    proof {
                        assert(texts(pieces@)[i as int] == pieces@[i as int]@);
                        assert(lines[i as int] == pieces@[i as int]@);
                    }
                    s.read_line(pieces[i].as_slice(), want);
                }
                if s.config_ok {
                    s
                } else {
                    SliceCkpt::empty()
                }
            },
        }
    }
}

/// The line that marks a checkpoint as a run's.
pub open spec fn config_line(want: Seq<char>) -> Seq<char> {
    "config "@ + want
}

/// The line that records the kept channels.
pub open spec fn channels_line(ch: Seq<usize>) -> Seq<char> {
    "channels "@ + csv(ch)
}

/// The line that records the kept experts of a layer.
pub open spec fn experts_line(layer: nat, set: Seq<usize>) -> Seq<char> {
    "experts "@ + decimal(layer) + " "@ + csv(set)
}

/// The line that marks a checkpoint as a run's.
pub fn record_config(want: &str) -> (line: String)
    ensures
        line@ == config_line(want@),
{
    let mut out: String = String::new();
    push_text(&mut out, "config ");
    push_text(&mut out, want);
    proof {
        assert(out@ =~= config_line(want@));
    }
    out
}

/// The line that records the kept channels.
pub fn record_channels(ch: &[usize]) -> (line: String)
    ensures
        line@ == channels_line(ch@),
{
    let mut out: String = String::new();
    push_text(&mut out, "channels ");
    let list: String = join_csv(ch);
    push_text(&mut out, list.as_str());
    proof {
        assert(out@ =~= channels_line(ch@));
    }
    out
}

/// The line that records the kept experts of a layer.
pub fn record_experts(layer: usize, set: &[usize]) -> (line: String)
    ensures
        line@ == experts_line(layer as nat, set@),
{
    let mut out: String = String::new();
    push_text(&mut out, "experts ");
    push_decimal(&mut out, layer as u64);
    push_text(&mut out, " ");
    let list: String = join_csv(set);
    push_text(&mut out, list.as_str());
    proof {
        assert(out@ =~= experts_line(layer as nat, set@));
    }
    out
}

/// A text of complete lines.
pub open spec fn complete(t: Seq<char>) -> bool {
    t.len() == 0 || t.last() == '\n'
}

/// No line feed.
pub open spec fn one_line(line: Seq<char>) -> bool {
    forall|i: int| 0 <= i < line.len() ==> #[trigger] line[i] != '\n'
}

proof fn lemma_unfinished(t: Seq<char>, torn: Seq<char>)
    requires
        complete(t),
        one_line(torn),
    ensures
        pieces_ended(t + torn, '\n') == pieces_ended(t, '\n'),
        piece_after(t + torn, '\n') == torn,
    decreases torn.len(),
{
    if torn.len() == 0 {
        assert(t + torn =~= t);
        assert(torn =~= Seq::<char>::empty());
    } else {
        let u = torn.drop_last();
        lemma_unfinished(t, u);
        assert((t + torn).drop_last() =~= t + u);
        assert((t + torn).last() == torn[torn.len() - 1]);
        assert(u.push(torn.last()) =~= torn);
    }
}

/// What a crash leaves of a line changes nothing of what a checkpoint says.
pub proof fn law_torn_line_is_ignored(t: Seq<char>, torn: Seq<char>, want: Seq<char>)
    requires
        complete(t),
        one_line(torn),
    ensures
        text_read(t + torn, want) == text_read(t, want),
{
    lemma_unfinished(t, torn);
}

/// A complete line adds what it says.
pub proof fn law_recorded_line_is_read(t: Seq<char>, line: Seq<char>, want: Seq<char>)
    requires
        complete(t),
        one_line(line),
    ensures
        text_read((t + line).push('\n'), want) == line_read(text_read(t, want), line, want),
        complete((t + line).push('\n')),
{
    let u = t + line;
    lemma_unfinished(t, line);
    let all = u.push('\n');
    assert(all.drop_last() =~= u);
    let lines = pieces_ended(t, '\n');
    let more = pieces_ended(all, '\n');
    assert(more == lines.push(line));
    lemma_lines_prefix(more, lines, want, lines.len() as int);
}

proof fn lemma_lines_prefix(more: Seq<Seq<char>>, lines: Seq<Seq<char>>, want: Seq<char>, n: int)
    requires
        0 <= n <= lines.len() <= more.len(),
        forall|i: int| 0 <= i < lines.len() ==> more[i] == #[trigger] lines[i],
    ensures
        lines_read(more, want, n) == lines_read(lines, want, n),
    decreases n,
{
    if n > 0 {
        lemma_lines_prefix(more, lines, want, n - 1);
        assert(more[n - 1] == lines[n - 1]);
    }
}

proof fn lemma_word(head: Seq<char>, word: Seq<char>, rest: Seq<char>)
    requires
        head == word.push(' '),
        word.len() > 0,
        forall|i: int| 0 <= i < word.len() ==> !white_space(#[trigger] word[i]),
        rest.len() > 0,
        forall|i: int| 0 <= i < rest.len() ==> !white_space(#[trigger] rest[i]),
    ensures
        words(head + rest) == seq![word, rest],
{
    lemma_words_one(word);
    lemma_words_push(word, ' ', rest);
    assert(seq![word].push(rest) =~= seq![word, rest]);
}

/// The recorded keep-set of a layer is what a later run reads of it.
pub proof fn law_recorded_experts_are_restored(
    s: ResumeView,
    layer: nat,
    set: Seq<usize>,
    want: Seq<char>,
)
    requires
        set.len() > 0,
        layer <= usize::MAX,
    ensures
        one_line(experts_line(layer, set)),
        line_read(s, experts_line(layer, set), want) == (ResumeView {
            experts: s.experts.insert(layer, set),
            ..s
        }),
{
    reveal_strlit("experts ");
    reveal_strlit("experts");
    reveal_strlit(" ");
    reveal_strlit("config");
    reveal_strlit("channels");
    let word = "experts"@;
    let d = decimal(layer);
    let c = csv(set);
    assert("experts "@ =~= word.push(' '));
    lemma_decimal_is_a_word(layer);
    lemma_csv_is_a_word(set);
    lemma_word("experts "@, word, d);
    let front = "experts "@ + d;
    assert(experts_line(layer, set) =~= front.push(' ') + c);
    lemma_words_push(front, ' ', c);
    assert(words(experts_line(layer, set)) =~= seq![word, d, c]);
    law_decimal_reads_back(layer, usize::MAX as nat);
    law_csv_reads_back(set);
    assert(word[0] != "config"@[0] && word[0] != "channels"@[0]);
    let line = experts_line(layer, set);
    assert forall|i: int| 0 <= i < line.len() implies #[trigger] line[i] != '\n' by {
        if i >= 8 && i < 8 + d.len() {
            assert(line[i] == d[i - 8]);
        } else if i > 8 + d.len() {
            assert(line[i] == c[i - 9 - d.len()]);
        }
    }
}

/// The recorded channels are what a later run reads.
pub proof fn law_recorded_channels_are_restored(s: ResumeView, ch: Seq<usize>, want: Seq<char>)
    requires
        ch.len() > 0,
    ensures
        one_line(channels_line(ch)),
        line_read(s, channels_line(ch), want) == (ResumeView { channels: Some(ch), ..s }),
{
    reveal_strlit("channels ");
    reveal_strlit("channels");
    reveal_strlit("config");
    let word = "channels"@;
    let c = csv(ch);
    assert("channels "@ =~= word.push(' '));
    lemma_csv_is_a_word(ch);
    lemma_word("channels "@, word, c);
    law_csv_reads_back(ch);
    assert(word[1] != "config"@[1]);
    let line = channels_line(ch);
    assert forall|i: int| 0 <= i < line.len() implies #[trigger] line[i] != '\n' by {
        if i >= 9 {
            assert(line[i] == c[i - 9]);
        }
    }
}

/// A run recognises the mark that it wrote, and takes no other mark for its own.
pub proof fn law_mark_is_recognised(s: ResumeView, key: Seq<char>, other: Seq<char>)
    ensures
        one_line(config_line(run_mark(key))),
        line_read(s, config_line(run_mark(key)), run_mark(other)).config_ok <==> run_mark(key)
            == run_mark(other),
{
    reveal_strlit("config ");
    reveal_strlit("config");
    let word = "config"@;
    let m = run_mark(key);
    assert("config "@ =~= word.push(' '));
    crate::numtext::lemma_hex_is_a_word(fnv_spec(encode_utf8(key)) as nat, 16);
    lemma_word("config "@, word, m);
    let line = config_line(m);
    assert forall|i: int| 0 <= i < line.len() implies #[trigger] line[i] != '\n' by {
        if i >= 7 {
            assert(line[i] == m[i - 7]);
        }
    }
}

/// The decimal form of a number, or nothing.
pub open spec fn opt_decimal(n: Option<usize>) -> Seq<char> {
    match n {
        Some(n) => decimal(n as nat),
        None => Seq::empty(),
    }
}

/// The part of a run's parameters that names the vocabulary: the row count and the
/// hash of the frequency file.
pub open spec fn vocab_part(rows: Option<usize>, freq_text: Seq<char>) -> Seq<char> {
    match rows {
        Some(n) => decimal(n as nat) + ":"@ + run_mark(freq_text),
        None => Seq::empty(),
    }
}

/// The part of a run's parameters that names the expert order: the sketch and its
/// number of decisions.
pub open spec fn order_part(sketch: Option<Seq<char>>, total: u64) -> Seq<char> {
    match sketch {
        Some(p) => "frequency:"@ + p + ":"@ + decimal(total as nat),
        None => Seq::empty(),
    }
}

/// The parameters of a run, as its checkpoint is marked by them.
pub open spec fn run_key(
    o: OptionsView,
    layers: Seq<usize>,
    freq_text: Seq<char>,
    sketch_total: u64,
) -> Seq<char> {
    "model="@ + o.model + "|layers="@ + csv(layers) + "|hidden="@ + opt_decimal(o.hidden)
        + "|experts="@ + opt_decimal(o.experts) + "|vocabtop="@ + vocab_part(
        match o.vocab_top {
            Some((n, _)) => Some(n),
            None => None,
        },
        freq_text,
    ) + "|eorder="@ + order_part(o.expert_order, sketch_total)
}

fn push_opt_decimal(out: &mut String, n: Option<usize>)
    ensures
        final(out)@ == old(out)@ + opt_decimal(n),
{
    match n {
        Some(n) => push_decimal(out, n as u64),
        None => {
            proof {
                assert(out@ + Seq::<char>::empty() =~= out@);
            }
        },
    }
}

/// The parameters of a run, as its checkpoint is marked by them: what the options ask
/// for, the kept layers, the text of the frequency file and the decisions of the sketch.
pub fn key_of(o: &SliceOptions, layers: &[usize], freq_text: &str, sketch_total: u64) -> (key:
    String)
    ensures
        key@ == run_key(o@, layers@, freq_text@, sketch_total),
{
    let mut out: String = String::new();
    push_text(&mut out, "model=");
    push_text(&mut out, o.model.as_str());
    push_text(&mut out, "|layers=");
    let list: String = join_csv(layers);
    push_text(&mut out, list.as_str());
    push_text(&mut out, "|hidden=");
    push_opt_decimal(&mut out, o.hidden);
    push_text(&mut out, "|experts=");
    push_opt_decimal(&mut out, o.experts);
    push_text(&mut out, "|vocabtop=");
    let ghost before = out@;
    match &o.vocab_top {
        Some((n, _)) => {
            push_decimal(&mut out, *n as u64);
            push_text(&mut out, ":");
            push_hex(&mut out, fnv1a(freq_text), 16);
            proof {
                assert(out@ =~= before + vocab_part(Some(*n), freq_text@));
            }
        },
        None => {
            proof {
                assert(out@ =~= before + vocab_part(None, freq_text@));
            }
        },
    }
    push_text(&mut out, "|eorder=");
    let ghost mid = out@;
    match &o.expert_order {
        Some(p) => {
            push_text(&mut out, "frequency:");
            push_text(&mut out, p.as_str());
            push_text(&mut out, ":");
            push_decimal(&mut out, sketch_total);
            proof {
                assert(out@ =~= mid + order_part(Some(p@), sketch_total));
            }
        },
        None => {
            proof {
                assert(out@ =~= mid + order_part(None, sketch_total));
            }
        },
    }
    proof {
        assert(out@ =~= run_key(o@, layers@, freq_text@, sketch_total));
    }
    out
}

/// What stands between the same two texts is the same where the whole is.
proof fn lemma_middle_agrees(a: Seq<char>, x: Seq<char>, y: Seq<char>, b: Seq<char>)
    requires
        a + x + b == a + y + b,
    ensures
        x == y,
{
    let (s, t) = (a + x + b, a + y + b);
    assert(s.len() == t.len());
    assert(x.len() == y.len());
    assert(s.subrange(a.len() as int, a.len() as int + x.len()) =~= x);
    assert(t.subrange(a.len() as int, a.len() as int + y.len()) =~= y);
}

/// Twelve texts, parted around the fourth, the sixth and the eighth.
proof fn lemma_twelve(
    a: Seq<char>,
    b: Seq<char>,
    c: Seq<char>,
    d: Seq<char>,
    e: Seq<char>,
    f: Seq<char>,
    g: Seq<char>,
    h: Seq<char>,
    i: Seq<char>,
    j: Seq<char>,
    k: Seq<char>,
    l: Seq<char>,
)
    ensures
        ({
            let t = a + b + c + d + e + f + g + h + i + j + k + l;
            &&& t == (a + b + c) + d + (e + f + g + h + i + j + k + l)
            &&& t == (a + b + c + d + e) + f + (g + h + i + j + k + l)
            &&& t == (a + b + c + d + e + f + g) + h + (i + j + k + l)
        }),
{
    let t = a + b + c + d + e + f + g + h + i + j + k + l;
    assert(t =~= (a + b + c + d + e + f + g) + h + (i + j + k + l));
    assert(t =~= (a + b + c + d + e) + f + (g + h + i + j + k + l));
    assert(t =~= (a + b + c) + d + (e + f + g + h + i + j + k + l));
}

/// The parts of a run's key around the layers, the hidden size and the experts.
spec fn key_ends(o: OptionsView, freq_text: Seq<char>, total: u64) -> (
    Seq<char>,
    Seq<char>,
) {
    (
        vocab_part(
            match o.vocab_top {
                Some((n, _)) => Some(n),
                None => None,
            },
            freq_text,
        ),
        order_part(o.expert_order, total),
    )
}

proof fn lemma_key_parts(o: OptionsView, layers: Seq<usize>, freq_text: Seq<char>, total: u64)
    ensures
        ({
            let key = run_key(o, layers, freq_text, total);
            let (v, w) = key_ends(o, freq_text, total);
            let (h, e) = (opt_decimal(o.hidden), opt_decimal(o.experts));
            let front = "model="@ + o.model + "|layers="@;
            &&& key == front + csv(layers) + ("|hidden="@ + h + "|experts="@ + e + "|vocabtop="@ + v
                + "|eorder="@ + w)
            &&& key == (front + csv(layers) + "|hidden="@) + h + ("|experts="@ + e + "|vocabtop="@
                + v + "|eorder="@ + w)
            &&& key == (front + csv(layers) + "|hidden="@ + h + "|experts="@) + e + ("|vocabtop="@
                + v + "|eorder="@ + w)
        }),
{
    let (v, w) = key_ends(o, freq_text, total);
    lemma_twelve(
        "model="@,
        o.model,
        "|layers="@,
        csv(layers),
        "|hidden="@,
        opt_decimal(o.hidden),
        "|experts="@,
        opt_decimal(o.experts),
        "|vocabtop="@,
        v,
        "|eorder="@,
        w,
    );
}

/// The keys of two runs that differ only in the layers that are kept tell them apart.
pub proof fn law_keys_tell_layers_apart(
    o: OptionsView,
    layers: Seq<usize>,
    others: Seq<usize>,
    freq_text: Seq<char>,
    total: u64,
)
    requires
        run_key(o, layers, freq_text, total) == run_key(o, others, freq_text, total),
        layers.len() > 0,
        others.len() > 0,
    ensures
        layers == others,
{
    lemma_key_parts(o, layers, freq_text, total);
    lemma_key_parts(o, others, freq_text, total);
    let (v, w) = key_ends(o, freq_text, total);
    lemma_middle_agrees(
        "model="@ + o.model + "|layers="@,
        csv(layers),
        csv(others),
        "|hidden="@ + opt_decimal(o.hidden) + "|experts="@ + opt_decimal(o.experts) + "|vocabtop="@
            + v + "|eorder="@ + w,
    );
    law_csv_reads_back(layers);
    law_csv_reads_back(others);
}

/// The keys of two runs that differ only in the hidden size, or only in the number of
/// experts, tell them apart.
pub proof fn law_keys_tell_sizes_apart(
    o: OptionsView,
    hidden: Option<usize>,
    experts: Option<usize>,
    layers: Seq<usize>,
    freq_text: Seq<char>,
    total: u64,
)
    ensures
        run_key(o, layers, freq_text, total) == run_key(
            OptionsView { hidden, ..o },
            layers,
            freq_text,
            total,
        ) ==> o.hidden == hidden,
        run_key(o, layers, freq_text, total) == run_key(
            OptionsView { experts, ..o },
            layers,
            freq_text,
            total,
        ) ==> o.experts == experts,
{
    let p = OptionsView { hidden, ..o };
    let q = OptionsView { experts, ..o };
    let key = run_key(o, layers, freq_text, total);
    let (v, w) = key_ends(o, freq_text, total);
    let back = "|vocabtop="@ + v + "|eorder="@ + w;
    let front = "model="@ + o.model + "|layers="@ + csv(layers) + "|hidden="@;
    lemma_key_parts(o, layers, freq_text, total);
    lemma_key_parts(p, layers, freq_text, total);
    lemma_key_parts(q, layers, freq_text, total);
    if key == run_key(p, layers, freq_text, total) {
        lemma_middle_agrees(
            front,
            opt_decimal(o.hidden),
            opt_decimal(hidden),
            "|experts="@ + opt_decimal(o.experts) + "|vocabtop="@ + v + "|eorder="@ + w,
        );
        lemma_opt_decimal(o.hidden, hidden);
    }
    if key == run_key(q, layers, freq_text, total) {
        lemma_middle_agrees(
            front + opt_decimal(o.hidden) + "|experts="@,
            opt_decimal(o.experts),
            opt_decimal(experts),
            back,
        );
        lemma_opt_decimal(o.experts, experts);
    }
}

proof fn lemma_opt_decimal(a: Option<usize>, b: Option<usize>)
    requires
        opt_decimal(a) == opt_decimal(b),
    ensures
        a == b,
{
    let max = usize::MAX as nat;
    if a is Some {
        crate::numtext::lemma_decimal(a->Some_0 as nat);
        crate::numtext::law_decimal_reads_back(a->Some_0 as nat, max);
    }
    if b is Some {
        crate::numtext::lemma_decimal(b->Some_0 as nat);
        crate::numtext::law_decimal_reads_back(b->Some_0 as nat, max);
    }
}

} // verus!
