use vstd::prelude::*;

verus! {

/// The prompt marker byte `>`, the adapter's end-of-response signal.
pub const PROMPT: u8 = 62;

/// True of the bytes that end a response line: carriage return, line feed,
/// and the prompt marker `>`.
pub open spec fn is_terminator(b: u8) -> bool {
    b == 13 || b == 10 || b == 62
}

/// What decoding a byte sequence as text yields: the character sequence where
/// the bytes are valid UTF-8, and nothing otherwise.
pub uninterp spec fn utf8_decode(bytes: Seq<u8>) -> Option<Seq<char>>;

/// Relies on `String::from_utf8`: a byte sequence decodes to the string of
/// its UTF-8 characters exactly when it is valid UTF-8, the result depends on
/// the bytes alone, and every character takes at least one byte, so a
/// nonempty byte sequence decodes to a nonempty string.
#[verifier::external_body]
fn decode_line(bytes: &Vec<u8>) -> (r: Option<String>)
    ensures
        r matches Some(s) ==> utf8_decode(bytes@) == Some(s@) && (bytes@.len() > 0 ==> s@.len()
            > 0),
        r is None ==> utf8_decode(bytes@) is None,
{
    String::from_utf8(bytes.clone()).ok()
}

/// Whether the stream so far contains a prompt marker.
pub open spec fn has_prompt(s: Seq<u8>) -> bool {
    exists|i: int| 0 <= i < s.len() && s[i] == PROMPT
}

/// The stream up to and including its first prompt marker; the whole stream
/// where there is none.
pub open spec fn through_prompt(s: Seq<u8>) -> Seq<u8>
    decreases s.len(),
{
    if s.len() == 0 {
        s
    } else if s[0] == PROMPT {
        seq![s[0]]
    } else {
        seq![s[0]] + through_prompt(s.drop_first())
    }
}

/// The bytes of the line still being accumulated: everything after the last
/// terminator of the stream so far.
pub open spec fn open_segment(s: Seq<u8>) -> Seq<u8>
    decreases s.len(),
{
    if s.len() == 0 {
        Seq::empty()
    } else if is_terminator(s.last()) {
        Seq::empty()
    } else {
        open_segment(s.drop_last()).push(s.last())
    }
}

/// The response lines of the stream so far, in arrival order: each terminator
/// closes the accumulated segment, and exactly the nonempty segments that
/// decode as text become lines. Empty segments and segments that are not
/// valid text are dropped silently.
pub open spec fn emitted_lines(s: Seq<u8>) -> Seq<Seq<char>>
    decreases s.len(),
{
    if s.len() == 0 {
        Seq::empty()
    } else {
        let rest = emitted_lines(s.drop_last());
        if is_terminator(s.last()) {
            let seg = open_segment(s.drop_last());
            if seg.len() > 0 && utf8_decode(seg) is Some {
                rest.push(utf8_decode(seg)->Some_0)
            } else {
                rest
            }
        } else {
            rest
        }
    }
}

/// The lines of one full response: the lines observed up to and including the
/// first prompt marker (the prompt also closes a pending segment).
pub open spec fn response_lines(s: Seq<u8>) -> Seq<Seq<char>> {
    emitted_lines(through_prompt(s))
}

/// The predicate can answer true when shown a line with these characters.
pub open spec fn pred_accepts<F: Fn(&str) -> bool>(f: F, l: Seq<char>) -> bool {
    exists|s: &str| s@ == l && call_ensures(f, (s,), true)
}

/// The predicate can answer false when shown a line with these characters.
pub open spec fn pred_rejects<F: Fn(&str) -> bool>(f: F, l: Seq<char>) -> bool {
    exists|s: &str| s@ == l && call_ensures(f, (s,), false)
}

/// What a completed scan returns, given the input stream and the per-line
/// predicate: some number `k` of lines such that the result is exactly the
/// first `k` response lines of the stream, in arrival order and none empty;
/// every line before the `k`-th was accepted by the predicate; anything short
/// of the full response is explained by a rejection; and the scan ended
/// either at a prompt marker or at a rejected line.
pub open spec fn scan_post<F: Fn(&str) -> bool>(
    input: Seq<u8>,
    f: F,
    lv: Seq<Seq<char>>,
) -> bool {
    let full = response_lines(input);
    let k = lv.len() as int;
    &&& k <= full.len()
    &&& lv == full.take(k)
    &&& (forall|j: int| 0 <= j < k ==> (#[trigger] lv[j]).len() > 0)
    &&& (forall|j: int| 0 <= j < k - 1 ==> pred_accepts(f, #[trigger] full[j]))
    &&& (k < full.len() ==> k >= 1 && pred_rejects(f, full[k - 1]))
    &&& (has_prompt(input) || (k >= 1 && pred_rejects(f, full[k - 1])))
}

/// What one byte did to the scan: nothing the caller must act on, a
/// completed line to hand to the predicate, the prompt alone, or the prompt
/// closing a final line that the predicate is still shown before the scan
/// ends.
#[derive(Debug, Clone, Copy, PartialEq, Eq)]
pub enum StepEvent {
    Quiet,
    Line,
    Prompt,
    PromptLine,
}

/// The framing state machine: the bytes of the line being accumulated, and
/// the lines completed so far. One response is scanned by feeding it bytes
/// one at a time until a prompt marker ends the scan.
pub struct LineScanner {
    /// Bytes accumulated since the last terminator.
    pub buf: Vec<u8>,
    /// Lines completed so far, in arrival order.
    pub lines: Vec<String>,
}

impl LineScanner {
    /// A scanner that has consumed nothing.
    pub fn new() -> (s: Self)
        ensures
            s.buf@ == Seq::<u8>::empty(),
            s.lines@ == Seq::<String>::empty(),
    {
        LineScanner { buf: Vec::new(), lines: Vec::new() }
    }

    /// Consumes one byte. A terminator closes the accumulated segment: a
    /// nonempty segment that decodes as text is appended to `lines` (the
    /// event says whether the caller must now consult its predicate), any
    /// other segment is dropped silently, and a prompt marker additionally
    /// ends the scan. Every other byte is accumulated.
    pub fn step(&mut self, b: u8) -> (ev: StepEvent)
        ensures
            !is_terminator(b) ==> final(self).buf@ == old(self).buf@.push(b) && final(self).lines
                == old(self).lines && ev == StepEvent::Quiet,
            is_terminator(b) ==> final(self).buf@ == Seq::<u8>::empty(),
            is_terminator(b) && (old(self).buf@.len() == 0 || utf8_decode(old(self).buf@)
                is None) ==> final(self).lines == old(self).lines && ev == (if b == PROMPT {
                StepEvent::Prompt
            } else {
                StepEvent::Quiet
            }),
            is_terminator(b) && old(self).buf@.len() > 0 ==> (utf8_decode(old(self).buf@) matches
                Some(cs) ==> final(self).lines.deep_view() == old(self).lines.deep_view().push(cs)
                && final(self).lines@.len() == old(self).lines@.len() + 1
                && final(self).lines@.last()@ == cs && cs.len() > 0 && ev == (if b == PROMPT {
                StepEvent::PromptLine
            } else {
                StepEvent::Line
            })),
    {
        if b == 13 || b == 10 || b == PROMPT {
            let mut ev = if b == PROMPT {
                StepEvent::Prompt
            } else {
                StepEvent::Quiet
            };
            if self.buf.len() > 0 {
                let ghost old_lines = self.lines.deep_view();
                match decode_line(&self.buf) {
                    Some(s) => {
                        self.lines.push(s);
                        proof {
                            assert(self.lines.deep_view() =~~= old_lines.push(s@));
                        }
                        ev = if b == PROMPT {
                            StepEvent::PromptLine
                        } else {
                            StepEvent::Line
                        };
                    },
                    None => {},
                }
                self.buf.clear();
            }
            ev
        } else {
            self.buf.push(b);
            StepEvent::Quiet
        }
    }
}

proof fn lemma_prefix_trans<A>(a: Seq<A>, b: Seq<A>, c: Seq<A>)
    requires
        a.is_prefix_of(b),
        b.is_prefix_of(c),
    ensures
        a.is_prefix_of(c),
{
    assert(a =~= c.take(a.len() as int));
}

proof fn lemma_through_prompt_at(s: Seq<u8>, i: int)
    requires
        0 <= i < s.len(),
        forall|j: int| 0 <= j < i ==> s[j] != PROMPT,
        s[i] == PROMPT,
    ensures
        through_prompt(s) == s.take(i + 1),
    decreases s.len(),
{
    if s[0] == PROMPT {
        assert(i == 0);
        assert(s.take(1) =~= seq![s[0]]);
    } else {
        lemma_through_prompt_at(s.drop_first(), i - 1);
        assert(seq![s[0]] + s.drop_first().take(i) =~= s.take(i + 1));
    }
}

proof fn lemma_prompt_free_prefix(s: Seq<u8>, j: int)
    requires
        0 <= j <= s.len(),
        forall|x: int| 0 <= x < j ==> s[x] != PROMPT,
    ensures
        s.take(j).is_prefix_of(through_prompt(s)),
    decreases s.len(),
{
    if j == 0 {
        assert(s.take(0) =~= Seq::<u8>::empty());
        assert(s.take(0).is_prefix_of(through_prompt(s)));
    } else {
        assert(s.len() > 0 && s[0] != PROMPT);
        lemma_prompt_free_prefix(s.drop_first(), j - 1);
        let a = s.drop_first().take(j - 1);
        let b = through_prompt(s.drop_first());
        assert(a =~= b.take(a.len() as int));
        assert(s.take(j) =~= seq![s[0]] + a);
        assert(through_prompt(s) == seq![s[0]] + b);
        assert(s.take(j) =~= through_prompt(s).take(j));
    }
}

proof fn lemma_emitted_lines_prefix(w: Seq<u8>, i: int)
    requires
        0 <= i <= w.len(),
    ensures
        emitted_lines(w.take(i)).is_prefix_of(emitted_lines(w)),
    decreases w.len() - i,
{
    if i == w.len() {
        assert(w.take(i) =~= w);
        assert(emitted_lines(w).is_prefix_of(emitted_lines(w))) by {
            assert(emitted_lines(w) =~= emitted_lines(w).take(emitted_lines(w).len() as int));
        }
    } else {
        let u = w.take(i);
        let v = w.take(i + 1);
        assert(v.drop_last() =~= u);
        assert(emitted_lines(u).is_prefix_of(emitted_lines(v))) by {
            let eu = emitted_lines(u);
            if is_terminator(v.last()) {
                let seg = open_segment(u);
                if seg.len() > 0 && utf8_decode(seg) is Some {
                    assert(emitted_lines(v) == eu.push(utf8_decode(seg)->Some_0));
                    assert(eu =~= eu.push(utf8_decode(seg)->Some_0).take(eu.len() as int));
                } else {
                    assert(eu =~= eu.take(eu.len() as int));
                }
            } else {
                assert(eu =~= eu.take(eu.len() as int));
            }
        }
        lemma_emitted_lines_prefix(w, i + 1);
        lemma_prefix_trans(emitted_lines(u), emitted_lines(v), emitted_lines(w));
    }
}

/// Scans one response held in memory, feeding the bytes to the framing state
/// machine in order: each completed line is shown to `on_line`, a false
/// answer stops the scan at once with the lines so far, and a prompt marker
/// ends the response (the predicate is still shown a line the prompt closed,
/// though its answer no longer matters). Returns nothing where the stream ran
/// out before a prompt or a rejection: a live transport would still be
/// waiting for more bytes.
pub fn scan<F: Fn(&str) -> bool>(input: &[u8], on_line: F) -> (r: Option<Vec<String>>)
    requires
        forall|s: &str| call_requires(on_line, (s,)),
    ensures
        has_prompt(input@) ==> r is Some,
        r matches Some(lines) ==> scan_post(input@, on_line, lines.deep_view()),
{
    let n = input.len();
    let mut sc = LineScanner::new();
    let mut i: usize = 0;
    proof {
        assert(input@.take(0) =~= Seq::<u8>::empty());
        assert(sc.lines.deep_view() =~~= emitted_lines(input@.take(0)));
    }
    while i < n
        invariant
            i <= n,
            n == input@.len(),
            forall|s: &str| call_requires(on_line, (s,)),
            forall|j: int| 0 <= j < i ==> input@[j] != PROMPT,
            sc.buf@ == open_segment(input@.take(i as int)),
            sc.lines.deep_view() == emitted_lines(input@.take(i as int)),
            forall|j: int|
                0 <= j < sc.lines@.len() ==> pred_accepts(
                    on_line,
                    #[trigger] sc.lines.deep_view()[j],
                ),
            forall|j: int| 0 <= j < sc.lines@.len() ==> (#[trigger] sc.lines.deep_view()[j]).len()
                > 0,
        decreases n - i,
    {
        let b = input[i];
        let ghost pre = input@.take(i as int);
        let ghost post = input@.take(i + 1);
        proof {
            assert(post.drop_last() =~= pre);
            assert(post.last() == input@[i as int]);
        }
        let ghost entry_lv = sc.lines.deep_view();
        let ev = sc.step(b);
        match ev {
            StepEvent::Quiet => {},
            StepEvent::Line => {
                let idx = sc.lines.len() - 1;
                let line_str = sc.lines[idx].as_str();
                let keep = on_line(line_str);
                proof {
                    assert(call_ensures(on_line, (line_str,), keep));
                    assert(sc.lines.deep_view()[idx as int] == sc.lines@[idx as int]@);
                    assert(line_str@ == sc.lines.deep_view()[idx as int]);
                    assert(sc.lines.deep_view() == emitted_lines(post));
                }
                if !keep {
                    proof {
                        assert(pred_rejects(on_line, sc.lines.deep_view()[idx as int]));
                        lemma_prompt_free_prefix(input@, i + 1);
                        let tp = through_prompt(input@);
                        assert(post =~= tp.take(post.len() as int));
                        lemma_emitted_lines_prefix(tp, post.len() as int);
                        let lv = sc.lines.deep_view();
                        let full = response_lines(input@);
                        let k = lv.len() as int;
                        assert(lv =~~= full.take(k));
                        assert forall|j: int| 0 <= j < k implies #[trigger] full[j] == lv[j] by {
                            assert(full.take(k)[j] == full[j]);
                        }
                        assert(pred_rejects(on_line, full[k - 1]));
                        assert forall|j: int| 0 <= j < k - 1 implies pred_accepts(
                            on_line,
                            #[trigger] full[j],
                        ) by {
                            assert(lv[j] == entry_lv[j]);
                            assert(pred_accepts(on_line, entry_lv[j]));
                        }
                        assert forall|j: int| 0 <= j < k implies (#[trigger] lv[j]).len() > 0 by {
                            if j < k - 1 {
                                assert(lv[j] == entry_lv[j]);
                                assert(entry_lv[j].len() > 0);
                            } else {
                                assert(lv[j] == lv.last());
                            }
                        }
                        assert(scan_post(input@, on_line, lv));
                    }
                    return Some(sc.lines);
                }
                proof {
                    assert(pred_accepts(on_line, sc.lines.deep_view()[idx as int]));
                }
            },
            StepEvent::Prompt => {
                proof {
                    lemma_through_prompt_at(input@, i as int);
                    assert(sc.lines.deep_view() == response_lines(input@));
                    assert(sc.lines.deep_view() =~~= response_lines(input@).take(
                        sc.lines.deep_view().len() as int,
                    ));
                    assert(scan_post(input@, on_line, sc.lines.deep_view()));
                }
                return Some(sc.lines);
            },
            StepEvent::PromptLine => {
                let idx = sc.lines.len() - 1;
                let _ = on_line(sc.lines[idx].as_str());
                proof {
                    lemma_through_prompt_at(input@, i as int);
                    assert(sc.lines.deep_view() == response_lines(input@));
                    assert(sc.lines.deep_view() =~~= response_lines(input@).take(
                        sc.lines.deep_view().len() as int,
                    ));
                    assert(scan_post(input@, on_line, sc.lines.deep_view()));
                }
                return Some(sc.lines);
            },
        }
        i += 1;
    }
    proof {
        assert(input@.take(n as int) =~= input@);
    }
    None
}

/// Scans one response held in memory, collecting every line up to the prompt
/// marker: the scan of a command/response exchange, where no early exit is
/// wanted. Succeeds exactly when the stream contains a prompt, and then
/// returns exactly the response's lines, in arrival order and none empty.
pub fn scan_all(input: &[u8]) -> (r: Option<Vec<String>>)
    ensures
        r is Some <==> has_prompt(input@),
        r matches Some(lines) ==> lines.deep_view() == response_lines(input@) && (forall|j: int|
            0 <= j < lines@.len() ==> (#[trigger] lines.deep_view()[j]).len() > 0),
{
    let keep_all = |s: &str| -> (b: bool)
        ensures
            b,
        {
            true
        };
    let r = scan(input, keep_all);
    proof {
        if r is Some {
            let lines = r->Some_0;
            let full = response_lines(input@);
            let lv = lines.deep_view();
            let k = lv.len() as int;
            if k < full.len() || !has_prompt(input@) {
                assert(pred_rejects(keep_all, full[k - 1]));
                let s = choose|s: &str| s@ == full[k - 1] && call_ensures(keep_all, (s,), false);
                assert(false);
            }
            assert(lv =~~= full);
        }
    }
    r
}

} // verus!
