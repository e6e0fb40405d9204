//! Locating question numbers, from OCR text (pattern matching) and from the
//! page geometry (line starts at the left margin).
use crate::geometry::{Rect, PPM};
use crate::ocr::{ocr_view, ocr_views, OcrResult, OcrView};
use crate::pattern_match::{regex_compiles, regex_group1, regex_is_match, CompiledRegex};
use crate::sorting::{is_stable_order, permute, stable_order, stable_order_of};
use crate::text::{
    char_prefix, decimal, decimal_string, parse_u32, parse_u32_spec, trim_str, trimmed,
};
use crate::types::{PatternType, QuestionAnchor, QuestionPattern, TextBlock};
use vstd::prelude::*;

verus! {

/// Value of a Chinese numeral digit character.
pub open spec fn chinese_digit(c: char) -> Option<nat> {
    if c == '零' {
        Some(0)
    } else if c == '一' {
        Some(1)
    } else if c == '二' {
        Some(2)
    } else if c == '三' {
        Some(3)
    } else if c == '四' {
        Some(4)
    } else if c == '五' {
        Some(5)
    } else if c == '六' {
        Some(6)
    } else if c == '七' {
        Some(7)
    } else if c == '八' {
        Some(8)
    } else if c == '九' {
        Some(9)
    } else {
        None
    }
}

/// Value of a Chinese numeral of one to three characters: `十` (10), a digit,
/// `十d` (10 + d), `d十` (10·d) or `d十d` (10·d + d).
pub open spec fn chinese_value(s: Seq<char>) -> Option<nat> {
    if s.len() == 1 {
        if s[0] == '十' {
            Some(10)
        } else {
            chinese_digit(s[0])
        }
    } else if s.len() == 2 {
        if s[0] == '十' {
            match chinese_digit(s[1]) {
                Some(n) => Some(10 + n),
                None => None,
            }
        } else if s[1] == '十' {
            match chinese_digit(s[0]) {
                Some(n) => Some(n * 10),
                None => None,
            }
        } else {
            None
        }
    } else if s.len() == 3 {
        if s[1] == '十' {
            match (chinese_digit(s[0]), chinese_digit(s[2])) {
                (Some(t), Some(o)) => Some(t * 10 + o),
                _ => None,
            }
        } else {
            None
        }
    } else {
        None
    }
}

/// Decimal text of a Chinese numeral, if it is one.
pub open spec fn chinese_number_text(s: Seq<char>) -> Option<Seq<char>> {
    match chinese_value(s) {
        Some(n) => Some(decimal(n)),
        None => None,
    }
}

/// Characters that can start a Chinese question number.
pub open spec fn is_chinese_numeral_char(c: char) -> bool {
    c == '零' || c == '一' || c == '二' || c == '三' || c == '四' || c == '五' || c == '六' || c == '七'
        || c == '八' || c == '九' || c == '十' || c == '百'
}

/// Length of the leading run of Chinese numeral characters.
pub open spec fn chinese_run_len(s: Seq<char>) -> int
    decreases s.len(),
{
    if s.len() == 0 || !is_chinese_numeral_char(s[0]) {
        0
    } else {
        1 + chinese_run_len(s.drop_first())
    }
}

/// The regular expressions that pull a number out of each kind of label.
pub open spec fn numbered_id_regex() -> Seq<char> {
    "(\\d+)"@
}

pub open spec fn parenthesized_id_regex() -> Seq<char> {
    "\\((\\d+)\\)"@
}

pub open spec fn bracketed_id_regex() -> Seq<char> {
    "【(\\d+)】"@
}

/// Number of a question-number label of the given kind.
pub open spec fn extract_id_spec(text: Seq<char>, pattern_type: PatternType) -> Option<Seq<char>> {
    match pattern_type {
        PatternType::Numbered => if regex_compiles(numbered_id_regex()) {
            regex_group1(numbered_id_regex(), text)
        } else {
            None
        },
        PatternType::Parenthesized => if regex_compiles(parenthesized_id_regex()) {
            regex_group1(parenthesized_id_regex(), text)
        } else {
            None
        },
        PatternType::Bracketed => if regex_compiles(bracketed_id_regex()) {
            regex_group1(bracketed_id_regex(), text)
        } else {
            None
        },
        PatternType::Chinese => {
            let run = text.subrange(0, chinese_run_len(text));
            if run.len() == 0 {
                None
            } else {
                chinese_number_text(run)
            }
        },
    }
}

/// The view of an optional string.
pub open spec fn opt_view(o: Option<String>) -> Option<Seq<char>> {
    match o {
        Some(s) => Some(s@),
        None => None,
    }
}

/// A question anchor as plain values: number, box, confidence, label text
/// and kind.
pub type AnchorView = (Seq<char>, Rect, i64, Seq<char>, PatternType);

pub open spec fn anchor_view(a: QuestionAnchor) -> AnchorView {
    (a.question_id@, a.bbox, a.confidence, a.text@, a.pattern_type)
}

pub open spec fn anchor_views(v: Seq<QuestionAnchor>) -> Seq<AnchorView> {
    v.map_values(|a: QuestionAnchor| anchor_view(a))
}

/// Every anchor box is well formed.
pub open spec fn anchor_boxes_wf(anchors: Seq<AnchorView>) -> bool {
    forall|i: int| 0 <= i < anchors.len() ==> (#[trigger] anchors[i]).1.wf()
}

/// Every anchor's confidence lies between 0 and 1 (in millionths).
pub open spec fn confidences_in_range(anchors: Seq<AnchorView>) -> bool {
    forall|i: int| 0 <= i < anchors.len() ==> 0 <= #[trigger] anchors[i].2 <= PPM
}

/// Every OCR confidence lies between 0 and 1 (in millionths).
pub open spec fn ocr_confidences_in_range(rs: Seq<OcrView>) -> bool {
    forall|i: int| 0 <= i < rs.len() ==> 0 <= #[trigger] rs[i].2 <= PPM
}

/// Every OCR result box is well formed.
pub open spec fn ocr_boxes_wf(rs: Seq<OcrView>) -> bool {
    forall|i: int| 0 <= i < rs.len() ==> (#[trigger] rs[i]).1.wf()
}

/// The number and kind given by the first pattern (in trying order) that
/// matches `prefix` and yields a number.
pub open spec fn first_match(views: Seq<PatternView>, prefix: Seq<char>) -> Option<(Seq<char>, PatternType)>
    decreases views.len(),
{
    if views.len() == 0 {
        None
    } else {
        let p = views[0];
        if regex_is_match(p.0, prefix) && extract_id_spec(prefix, p.1) is Some {
            Some((extract_id_spec(prefix, p.1).unwrap(), p.1))
        } else {
            first_match(views.drop_first(), prefix)
        }
    }
}

/// The first ten characters of the trimmed OCR text.
pub open spec fn ocr_prefix(text: Seq<char>) -> Seq<char> {
    let t = trimmed(text);
    t.subrange(0, if t.len() < 10 { t.len() as int } else { 10 })
}

/// The anchor an OCR result gives, if a pattern recognises its start.
pub open spec fn ocr_anchor(views: Seq<PatternView>, r: OcrView) -> Option<AnchorView> {
    match first_match(views, ocr_prefix(r.0)) {
        Some((id, t)) => Some((id, r.1, r.2, trimmed(r.0), t)),
        None => None,
    }
}

/// The anchors of a list of OCR results, in list order.
pub open spec fn ocr_anchors(views: Seq<PatternView>, rs: Seq<OcrView>) -> Seq<AnchorView>
    decreases rs.len(),
{
    if rs.len() == 0 {
        Seq::empty()
    } else {
        let rest = ocr_anchors(views, rs.drop_last());
        match ocr_anchor(views, rs.last()) {
            Some(a) => rest.push(a),
            None => rest,
        }
    }
}

proof fn lemma_first_match_step(views: Seq<PatternView>, prefix: Seq<char>, k: int)
    requires
        0 <= k < views.len(),
        !(regex_is_match(views[k].0, prefix) && extract_id_spec(prefix, views[k].1) is Some),
    ensures
        first_match(views.subrange(k, views.len() as int), prefix) == first_match(
            views.subrange(k + 1, views.len() as int),
            prefix,
        ),
{
    let s = views.subrange(k, views.len() as int);
    assert(s[0] == views[k]);
    assert(s.drop_first() =~= views.subrange(k + 1, views.len() as int));
}

proof fn lemma_first_match_hit(views: Seq<PatternView>, prefix: Seq<char>, k: int)
    requires
        0 <= k < views.len(),
        regex_is_match(views[k].0, prefix) && extract_id_spec(prefix, views[k].1) is Some,
    ensures
        first_match(views.subrange(k, views.len() as int), prefix) == Some(
            (extract_id_spec(prefix, views[k].1).unwrap(), views[k].1),
        ),
{
    let s = views.subrange(k, views.len() as int);
    assert(s[0] == views[k]);
}

/// A copy of an anchor.
pub fn copy_anchor(a: &QuestionAnchor) -> (r: QuestionAnchor)
    ensures
        anchor_view(r) == anchor_view(*a),
{
    QuestionAnchor {
        question_id: a.question_id.clone(),
        bbox: a.bbox,
        confidence: a.confidence,
        text: a.text.clone(),
        pattern_type: a.pattern_type,
    }
}

fn chinese_digit_exec(c: char) -> (d: Option<u64>)
    ensures
        d matches Some(v) ==> chinese_digit(c) == Some(v as nat),
        d is None ==> chinese_digit(c) is None,
{
    if c == '零' {
        Some(0)
    } else if c == '一' {
        Some(1)
    } else if c == '二' {
        Some(2)
    } else if c == '三' {
        Some(3)
    } else if c == '四' {
        Some(4)
    } else if c == '五' {
        Some(5)
    } else if c == '六' {
        Some(6)
    } else if c == '七' {
        Some(7)
    } else if c == '八' {
        Some(8)
    } else if c == '九' {
        Some(9)
    } else {
        None
    }
}

fn is_chinese_numeral_char_exec(c: char) -> (b: bool)
    ensures
        b == is_chinese_numeral_char(c),
{
    c == '零' || c == '一' || c == '二' || c == '三' || c == '四' || c == '五' || c == '六' || c
        == '七' || c == '八' || c == '九' || c == '十' || c == '百'
}

/// A compiled question-number pattern.
struct CompiledPattern {
    regex: CompiledRegex,
    pattern_type: PatternType,
    priority: u8,
}

/// Question-number locator: the usable patterns in list order, and the order
/// in which they are tried (by decreasing priority, ties in list order).
pub struct QuestionLocator {
    patterns: Vec<CompiledPattern>,
    order: Vec<usize>,
}

/// Pattern, kind and priority of each usable pattern.
pub type PatternView = (Seq<char>, PatternType, u8);

/// The usable patterns (those that compile), in the order of the list.
pub open spec fn usable_patterns(ps: Seq<QuestionPattern>) -> Seq<PatternView>
    decreases ps.len(),
{
    if ps.len() == 0 {
        Seq::empty()
    } else {
        let rest = usable_patterns(ps.drop_last());
        let p = ps.last();
        if regex_compiles(p.pattern@) {
            rest.push((p.pattern@, p.pattern_type, p.priority))
        } else {
            rest
        }
    }
}

/// Sort keys that put higher priorities first.
pub open spec fn priority_keys(ps: Seq<PatternView>) -> Seq<i64> {
    ps.map_values(|p: PatternView| (-(p.2 as int)) as i64)
}

/// The patterns by decreasing priority, ties kept in list order.
pub open spec fn by_priority(ps: Seq<PatternView>) -> Seq<PatternView> {
    permute(ps, stable_order_of(priority_keys(ps)))
}

spec fn compiled_views(v: Seq<CompiledPattern>) -> Seq<PatternView> {
    v.map_values(|c: CompiledPattern| (c.regex.pattern(), c.pattern_type, c.priority))
}

impl QuestionLocator {
    #[verifier::type_invariant]
    spec fn ordered(&self) -> bool {
        &&& is_stable_order(priority_keys(compiled_views(self.patterns@)), self.order@)
        &&& self.order@ == stable_order_of(priority_keys(compiled_views(self.patterns@)))
    }

    /// The patterns in the order they are tried.
    pub closed spec fn pattern_views(&self) -> Seq<PatternView> {
        permute(compiled_views(self.patterns@), self.order@)
    }

    /// Compiles the patterns, dropping those that do not compile, and orders
    /// them by decreasing priority.
    pub fn new(patterns: Vec<QuestionPattern>) -> (loc: Self)
        ensures
            loc.pattern_views() == by_priority(usable_patterns(patterns@)),
    {
        let mut compiled: Vec<CompiledPattern> = Vec::new();
        let mut i: usize = 0;
        while i < patterns.len()
            invariant
                i <= patterns@.len(),
                compiled_views(compiled@) == usable_patterns(patterns@.subrange(0, i as int)),
            decreases patterns@.len() - i,
        {
            let p = &patterns[i];
            let ghost before = compiled@;
            proof {
                let t = patterns@.subrange(0, i as int + 1);
                assert(t.drop_last() =~= patterns@.subrange(0, i as int));
                assert(t.last() == patterns@[i as int]);
            }
            match CompiledRegex::compile(p.pattern.as_str()) {
                Ok(regex) => {
                    compiled.push(
                        CompiledPattern { regex, pattern_type: p.pattern_type, priority: p.priority },
                    );
                    proof {
                        assert(compiled_views(compiled@) =~= compiled_views(before).push(
                            (p.pattern@, p.pattern_type, p.priority),
                        ));
                    }
                },
                Err(_) => {},
            }
            i = i + 1;
        }
        assert(patterns@.subrange(0, patterns@.len() as int) =~= patterns@);
        let ghost cv = compiled_views(compiled@);
        let mut keys: Vec<i64> = Vec::new();
        let mut k: usize = 0;
        while k < compiled.len()
            invariant
                k <= compiled@.len(),
                cv == compiled_views(compiled@),
                keys@ == priority_keys(cv).subrange(0, k as int),
            decreases compiled@.len() - k,
        {
            keys.push(-(compiled[k].priority as i64));
            proof {
                assert(keys@ =~= priority_keys(cv).subrange(0, k as int + 1));
            }
            k = k + 1;
        }
        assert(keys@ =~= priority_keys(cv));
        let order = stable_order(&keys);
        QuestionLocator { patterns: compiled, order }
    }

    /// Anchors read from OCR results: the first ten characters of each
    /// trimmed text are tried against the patterns in order, and the first
    /// pattern that matches and yields a number gives the anchor.
    pub fn match_from_ocr(&self, ocr_results: &[OcrResult]) -> (anchors: Vec<QuestionAnchor>)
        ensures
            anchor_views(anchors@) == ocr_anchors(self.pattern_views(), ocr_views(ocr_results@)),
            ocr_boxes_wf(ocr_views(ocr_results@)) ==> anchor_boxes_wf(anchor_views(anchors@)),
            ocr_confidences_in_range(ocr_views(ocr_results@)) ==> confidences_in_range(
                anchor_views(anchors@),
            ),
    {
        proof {
            use_type_invariant(self);
        }
        let ghost views = self.pattern_views();
        let ghost rv = ocr_views(ocr_results@);
        let mut anchors: Vec<QuestionAnchor> = Vec::new();
        let mut i: usize = 0;
        while i < ocr_results.len()
            invariant
                i <= ocr_results@.len(),
                views == self.pattern_views(),
                is_stable_order(priority_keys(compiled_views(self.patterns@)), self.order@),
                rv == ocr_views(ocr_results@),
                anchor_views(anchors@) == ocr_anchors(views, rv.subrange(0, i as int)),
                ocr_boxes_wf(rv) ==> anchor_boxes_wf(anchor_views(anchors@)),
                ocr_confidences_in_range(rv) ==> confidences_in_range(anchor_views(anchors@)),
            decreases ocr_results@.len() - i,
        {
            let r = &ocr_results[i];
            let text = trim_str(r.text.as_str());
            let prefix = char_prefix(text, 10);
            let ghost n = views.len();
            let mut found: Option<QuestionAnchor> = None;
            let mut k: usize = 0;
            assert(views.subrange(0, n as int) =~= views);
            while k < self.order.len() && found.is_none()
                invariant
                    k <= self.order@.len(),
                    n == views.len(),
                    views == self.pattern_views(),
                    views.len() == self.order@.len(),
                    is_stable_order(priority_keys(compiled_views(self.patterns@)), self.order@),
                    prefix@ == ocr_prefix(r.text@),
                    text@ == trimmed(r.text@),
                    found is None ==> first_match(views, prefix@) == first_match(
                        views.subrange(k as int, n as int),
                        prefix@,
                    ),
                    found matches Some(a) ==> (ocr_anchor(views, ocr_view(*r)) == Some(anchor_view(a)))
                        && a.bbox == r.bbox && a.confidence == r.confidence,
                decreases self.order@.len() - k + (if found is None { 1int } else { 0int }),
            {
                let idx = self.order[k];
                let c = &self.patterns[idx];
                proof {
                    assert(views[k as int] == (c.regex.pattern(), c.pattern_type, c.priority));
                }
                let mut hit = false;
                if c.regex.is_match(prefix) {
                    match self.extract_question_id(prefix, c.pattern_type) {
                        Some(question_id) => {
                            proof {
                                lemma_first_match_hit(views, prefix@, k as int);
                                assert(views.subrange(0, n as int) =~= views);
                            }
                            found = Some(
                                QuestionAnchor {
                                    question_id,
                                    bbox: r.bbox,
                                    confidence: r.confidence,
                                    text: String::from_str(text),
                                    pattern_type: c.pattern_type,
                                },
                            );
                            hit = true;
                        },
                        None => {},
                    }
                }
                if !hit {
                    proof {
                        lemma_first_match_step(views, prefix@, k as int);
                    }
                    k = k + 1;
                }
            }
            proof {
                if found is None {
                    assert(views.subrange(n as int, n as int) =~= Seq::<PatternView>::empty());
                    assert(first_match(views, prefix@) is None);
                }
                let t = rv.subrange(0, i as int + 1);
                assert(t.drop_last() =~= rv.subrange(0, i as int));
                assert(t.last() == ocr_view(*r));
            }
            let ghost before = anchors@;
            match found {
                Some(a) => {
                    anchors.push(a);
                    proof {
                        assert(anchor_views(anchors@) =~= anchor_views(before).push(anchor_view(a)));
                    }
                },
                None => {},
            }
            i = i + 1;
        }
        assert(rv.subrange(0, rv.len() as int) =~= rv);
        anchors
    }

    /// The question number in a label of the given kind: the first run of
    /// digits (`1.`), the digits in parentheses (`(1)`) or in 【】 (`【1】`),
    /// or the leading Chinese numeral (`一、`) converted to decimal.
    pub fn extract_question_id(&self, text: &str, pattern_type: PatternType) -> (id: Option<String>)
        ensures
            opt_view(id) == extract_id_spec(text@, pattern_type),
    {
        match pattern_type {
            PatternType::Numbered => match CompiledRegex::compile("(\\d+)") {
                Ok(re) => re.first_group(text),
                Err(_) => None,
            },
            PatternType::Parenthesized => match CompiledRegex::compile("\\((\\d+)\\)") {
                Ok(re) => re.first_group(text),
                Err(_) => None,
            },
            PatternType::Bracketed => match CompiledRegex::compile("【(\\d+)】") {
                Ok(re) => re.first_group(text),
                Err(_) => None,
            },
            PatternType::Chinese => {
                let n = text.unicode_len();
                let mut k: usize = 0;
                while k < n && is_chinese_numeral_char_exec(text.get_char(k))
                    invariant
                        n == text@.len(),
                        k <= n,
                        forall|j: int| 0 <= j < k ==> is_chinese_numeral_char(#[trigger] text@[j]),
                    decreases n - k,
                {
                    k = k + 1;
                }
                proof {
                    lemma_chinese_run(text@, k as int);
                }
                if k == 0 {
                    None
                } else {
                    let run = text.substring_char(0, k);
                    self.chinese_to_number(run)
                }
            },
        }
    }

    /// Converts a Chinese numeral of up to three characters to decimal text.
    pub fn chinese_to_number(&self, text: &str) -> (n: Option<String>)
        ensures
            opt_view(n) == chinese_number_text(text@),
    {
        let len = text.unicode_len();
        if len == 1 {
            let c0 = text.get_char(0);
            if c0 == '十' {
                return Some(decimal_string(10));
            }
            match chinese_digit_exec(c0) {
                Some(d) => Some(decimal_string(d)),
                None => None,
            }
        } else if len == 2 {
            let c0 = text.get_char(0);
            let c1 = text.get_char(1);
            if c0 == '十' {
                match chinese_digit_exec(c1) {
                    Some(d) => Some(decimal_string(10 + d)),
                    None => None,
                }
            } else if c1 == '十' {
                match chinese_digit_exec(c0) {
                    Some(d) => Some(decimal_string(d * 10)),
                    None => None,
                }
            } else {
                None
            }
        } else if len == 3 {
            let c0 = text.get_char(0);
            let c1 = text.get_char(1);
            let c2 = text.get_char(2);
            if c1 == '十' {
                match (chinese_digit_exec(c0), chinese_digit_exec(c2)) {
                    (Some(t), Some(o)) => Some(decimal_string(t * 10 + o)),
                    _ => None,
                }
            } else {
                None
            }
        } else {
            None
        }
    }
}

proof fn lemma_chinese_run(s: Seq<char>, k: int)
    requires
        0 <= k <= s.len(),
        forall|j: int| 0 <= j < k ==> is_chinese_numeral_char(#[trigger] s[j]),
        k == s.len() || !is_chinese_numeral_char(s[k]),
    ensures
        chinese_run_len(s) == k,
    decreases k,
{
    if k > 0 {
        let t = s.drop_first();
        assert forall|j: int| 0 <= j < k - 1 implies is_chinese_numeral_char(#[trigger] t[j]) by {
            assert(t[j] == s[j + 1]);
        }
        if k < s.len() {
            assert(t[k - 1] == s[k]);
        }
        lemma_chinese_run(t, k - 1);
    }
}

} // verus!
