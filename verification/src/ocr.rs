//! OCR results and the built-in test engine.
use crate::bitmap::Bitmap;
use crate::geometry::Rect;
use crate::types::{OcrConfig, OcrEngine};
use vstd::prelude::*;

verus! {

/// A recognised piece of text and where it is.
#[derive(Debug, Clone)]
pub struct OcrResult {
    pub text: String,
    pub bbox: Rect,
    /// Confidence in millionths.
    pub confidence: i64,
}

/// An OCR result as plain values: text, box and confidence.
pub type OcrView = (Seq<char>, Rect, i64);

pub open spec fn ocr_view(r: OcrResult) -> OcrView {
    (r.text@, r.bbox, r.confidence)
}

pub open spec fn ocr_views(rs: Seq<OcrResult>) -> Seq<OcrView> {
    rs.map_values(|r: OcrResult| ocr_view(r))
}

/// The results of the test engine as plain values.
pub open spec fn mock_ocr_views() -> Seq<OcrView> {
    mock_answers().map_values(|a: (Rect, Seq<char>)| (a.1, a.0, MOCK_CONFIDENCE))
}

/// A fixed text at a fixed place.
#[derive(Debug, Clone)]
struct MockPattern {
    bbox: Rect,
    text: String,
}

/// An OCR engine that answers with fixed question numbers (for tests).
pub struct MockOcrEngine {
    patterns: Vec<MockPattern>,
}

/// The fixed answers of the test engine: `"1."` … `"5."` at x = 50, every
/// 150 pixels from y = 100, each 30 × 20 pixels.
pub open spec fn mock_answers() -> Seq<(Rect, Seq<char>)> {
    seq![
        (Rect { x: 50, y: 100, width: 30, height: 20 }, "1."@),
        (Rect { x: 50, y: 250, width: 30, height: 20 }, "2."@),
        (Rect { x: 50, y: 400, width: 30, height: 20 }, "3."@),
        (Rect { x: 50, y: 550, width: 30, height: 20 }, "4."@),
        (Rect { x: 50, y: 700, width: 30, height: 20 }, "5."@),
    ]
}

/// Confidence the test engine reports (0.95).
pub const MOCK_CONFIDENCE: i64 = 950000;

impl MockOcrEngine {
    /// The engine's fixed answers.
    pub closed spec fn answers(&self) -> Seq<(Rect, Seq<char>)> {
        self.patterns@.map_values(|p: MockPattern| (p.bbox, p.text@))
    }

    pub fn new() -> (e: Self)
        ensures
            e.answers() == mock_answers(),
    {
        let mut patterns: Vec<MockPattern> = Vec::new();
        patterns.push(MockPattern { bbox: Rect::new(50, 100, 30, 20), text: String::from_str("1.") });
        patterns.push(MockPattern { bbox: Rect::new(50, 250, 30, 20), text: String::from_str("2.") });
        patterns.push(MockPattern { bbox: Rect::new(50, 400, 30, 20), text: String::from_str("3.") });
        patterns.push(MockPattern { bbox: Rect::new(50, 550, 30, 20), text: String::from_str("4.") });
        patterns.push(MockPattern { bbox: Rect::new(50, 700, 30, 20), text: String::from_str("5.") });
        let ghost answers = patterns@.map_values(|p: MockPattern| (p.bbox, p.text@));
        proof {
            reveal_strlit("1.");
            reveal_strlit("2.");
            reveal_strlit("3.");
            reveal_strlit("4.");
            reveal_strlit("5.");
            assert(answers =~= mock_answers());
        }
        MockOcrEngine { patterns }
    }

    /// Every fixed answer, with confidence 0.95; the image is not looked at.
    pub fn recognize(&self, _image: &Bitmap) -> (results: Vec<OcrResult>)
        ensures
            results@.len() == self.answers().len(),
            forall|i: int|
                0 <= i < results@.len() ==> (#[trigger] results@[i]).bbox == self.answers()[i].0
                    && results@[i].text@ == self.answers()[i].1 && results@[i].confidence
                    == MOCK_CONFIDENCE,
    {
        let mut results: Vec<OcrResult> = Vec::new();
        let mut i: usize = 0;
        while i < self.patterns.len()
            invariant
                i <= self.patterns@.len(),
                results@.len() == i,
                forall|j: int|
                    0 <= j < i ==> (#[trigger] results@[j]).bbox == self.answers()[j].0
                        && results@[j].text@ == self.answers()[j].1 && results@[j].confidence
                        == MOCK_CONFIDENCE,
            decreases self.patterns@.len() - i,
        {
            let p = &self.patterns[i];
            results.push(OcrResult { text: p.text.clone(), bbox: p.bbox, confidence: MOCK_CONFIDENCE });
            i = i + 1;
        }
        results
    }

    #[verifier::type_invariant]
    closed spec fn inv(&self) -> bool {
        self.answers() == mock_answers()
    }

    /// The text of the first fixed answer whose box touches `region`, or the
    /// empty string.
    pub fn recognize_region(&self, _image: &Bitmap, region: Rect) -> (text: String)
        requires
            region.wf(),
        ensures
            (exists|i: int|
                0 <= i < self.answers().len() && self.answers()[i].0.spec_intersects(&region)) ==> (
            exists|i: int|
                0 <= i < self.answers().len() && self.answers()[i].0.spec_intersects(&region)
                    && text@ == self.answers()[i].1 && forall|j: int|
                    0 <= j < i ==> !(#[trigger] self.answers()[j]).0.spec_intersects(&region)),
            (forall|i: int|
                0 <= i < self.answers().len() ==> !(#[trigger] self.answers()[i]).0.spec_intersects(
                    &region,
                )) ==> text@.len() == 0,
    {
        proof {
            use_type_invariant(self);
            let m = mock_answers();
            assert(m[0].0.wf() && m[1].0.wf() && m[2].0.wf() && m[3].0.wf() && m[4].0.wf());
            assert forall|j: int| 0 <= j < m.len() implies (#[trigger] m[j]).0.wf() by {
                assert(0 <= j < 5);
            }
        }
        let mut i: usize = 0;
        while i < self.patterns.len()
            invariant
                i <= self.patterns@.len(),
                region.wf(),
                self.answers() == mock_answers(),
                forall|j: int| 0 <= j < mock_answers().len() ==> (#[trigger] mock_answers()[j]).0.wf(),
                forall|j: int| 0 <= j < i ==> !(#[trigger] self.answers()[j]).0.spec_intersects(&region),
            decreases self.patterns@.len() - i,
        {
            let p = &self.patterns[i];
            assert(self.answers()[i as int].0 == p.bbox);
            assert(p.bbox.wf());
            if p.bbox.intersects(&region) {
                let t = p.text.clone();
                assert(t@ == self.answers()[i as int].1);
                return t;
            }
            i = i + 1;
        }
        String::new()
    }
}

/// The OCR front end used by the detector.
pub struct OcrAdapter {
    engine: MockOcrEngine,
}

impl OcrAdapter {
    /// Every engine choice is served by the built-in test engine.
    pub fn new(config: &OcrConfig) -> (a: Self)
        ensures
            a.engine_answers() == mock_answers(),
    {
        let engine = match config.engine {
            OcrEngine::Mock => MockOcrEngine::new(),
            OcrEngine::Tesseract => MockOcrEngine::new(),
            OcrEngine::PaddleOCR => MockOcrEngine::new(),
        };
        OcrAdapter { engine }
    }

    /// The fixed answers of the engine in use.
    pub closed spec fn engine_answers(&self) -> Seq<(Rect, Seq<char>)> {
        self.engine.answers()
    }

    pub fn recognize(&self, image: &Bitmap) -> (results: Vec<OcrResult>)
        ensures
            ocr_views(results@) == mock_ocr_views(),
            results@.len() == self.engine_answers().len(),
            forall|i: int|
                0 <= i < results@.len() ==> (#[trigger] results@[i]).bbox == self.engine_answers()[i].0
                    && results@[i].text@ == self.engine_answers()[i].1 && results@[i].confidence
                    == MOCK_CONFIDENCE,
    {
        proof {
            use_type_invariant(&self.engine);
        }
        let results = self.engine.recognize(image);
        assert(ocr_views(results@) =~= mock_ocr_views());
        results
    }

    /// The text that the engine reads in `region`: that of the first fixed
    /// answer whose box touches the region, or the empty string.
    pub fn recognize_region(&self, image: &Bitmap, region: Rect) -> (text: String)
        requires
            region.wf(),
        ensures
            (exists|i: int|
                0 <= i < self.engine_answers().len() && self.engine_answers()[i].0.spec_intersects(&region))
                ==> (exists|i: int|
                0 <= i < self.engine_answers().len() && self.engine_answers()[i].0.spec_intersects(&region)
                    && text@ == self.engine_answers()[i].1 && forall|j: int|
                    0 <= j < i ==> !(#[trigger] self.engine_answers()[j]).0.spec_intersects(&region)),
            (forall|i: int|
                0 <= i < self.engine_answers().len() ==> !(#[trigger] self.engine_answers()[i]).0.spec_intersects(
                    &region,
                )) ==> text@.len() == 0,
    {
        let text = self.engine.recognize_region(image, region);
        proof {
            let answers = self.engine_answers();
            if forall|i: int| 0 <= i < answers.len() ==> !(#[trigger] answers[i]).0.spec_intersects(&region) {
                assert forall|i: int| 0 <= i < self.engine.answers().len() implies !(
                #[trigger] self.engine.answers()[i]).0.spec_intersects(&region) by {
                    assert(answers[i] == self.engine.answers()[i]);
                }
            }
        }
        text
    }
}

} // verus!
