//! Data types shared by the detection pipeline.
//!
//! Geometry is on the integer pixel grid; confidences, ratios and factors are
//! fixed-point integers in millionths (see [`crate::geometry::PPM`]).
use crate::geometry::Rect;
use vstd::prelude::*;

verus! {

/// Binarisation method.
#[derive(Debug, Clone, Copy, PartialEq, Eq, Structural)]
pub enum BinarizationMethod {
    /// Global threshold chosen by Otsu's method.
    Otsu,
    /// Local mean threshold.
    Adaptive,
    /// Fixed threshold at mid-grey.
    Fixed,
}

/// Kind of question-number pattern.
#[derive(Debug, Clone, Copy, PartialEq, Eq, Structural)]
pub enum PatternType {
    /// `1.` `2.` `3.`
    Numbered,
    /// `(1)` `(2)` `(3)`
    Parenthesized,
    /// `一、` `二、` `三、`
    Chinese,
    /// `【1】` `【2】` `【3】`
    Bracketed,
}

/// OCR engine selection.
#[derive(Debug, Clone, Copy, PartialEq, Eq, Structural)]
pub enum OcrEngine {
    /// PaddleOCR inference engine.
    PaddleOCR,
    /// Tesseract.
    Tesseract,
    /// Built-in engine that returns fixed results (for tests).
    Mock,
}

/// Outcome of a detection run.
#[derive(Debug, Clone, Copy, PartialEq, Eq, Structural)]
pub enum DetectionStatus {
    Success,
    /// Fewer question regions than question anchors.
    PartialSuccess,
    Failed,
}

/// Classification of a text block.
#[derive(Debug, Clone, Copy, PartialEq, Eq, Structural)]
pub enum BlockType {
    Text,
    QuestionNumber,
    Option,
    Image,
    Table,
    Unknown,
}

/// A question-number pattern: a regular expression, its kind and its priority
/// (higher is tried first).
#[derive(Debug, Clone)]
pub struct QuestionPattern {
    pub pattern: String,
    pub pattern_type: PatternType,
    pub priority: u8,
}

impl QuestionPattern {
    /// The built-in pattern library.
    pub fn default_patterns() -> (v: Vec<QuestionPattern>)
        ensures
            v@.len() == 4,
            v@[0].pattern@ == "^\\d+\\."@,
            v@[0].pattern_type == PatternType::Numbered,
            v@[0].priority == 10,
            v@[1].pattern@ == "^\\(\\d+\\)"@,
            v@[1].pattern_type == PatternType::Parenthesized,
            v@[1].priority == 9,
            v@[2].pattern@ == "^[一二三四五六七八九十百]+、"@,
            v@[2].pattern_type == PatternType::Chinese,
            v@[2].priority == 8,
            v@[3].pattern@ == "^【\\d+】"@,
            v@[3].pattern_type == PatternType::Bracketed,
            v@[3].priority == 7,
    {
        let mut v: Vec<QuestionPattern> = Vec::new();
        v.push(
            QuestionPattern {
                pattern: String::from_str("^\\d+\\."),
                pattern_type: PatternType::Numbered,
                priority: 10,
            },
        );
        v.push(
            QuestionPattern {
                pattern: String::from_str("^\\(\\d+\\)"),
                pattern_type: PatternType::Parenthesized,
                priority: 9,
            },
        );
        v.push(
            QuestionPattern {
                pattern: String::from_str("^[一二三四五六七八九十百]+、"),
                pattern_type: PatternType::Chinese,
                priority: 8,
            },
        );
        v.push(
            QuestionPattern {
                pattern: String::from_str("^【\\d+】"),
                pattern_type: PatternType::Bracketed,
                priority: 7,
            },
        );
        v
    }
}

/// Preprocessing settings.
#[derive(Debug, Clone)]
pub struct PreprocessingConfig {
    pub enable_deskew: bool,
    pub enable_denoise: bool,
    pub binarization_method: BinarizationMethod,
    /// Contrast stretch factor, in millionths (one million leaves contrast unchanged).
    pub contrast_enhancement: i64,
}

impl Default for PreprocessingConfig {
    fn default() -> (c: Self)
        ensures
            c.enable_deskew,
            c.enable_denoise,
            c.binarization_method == BinarizationMethod::Adaptive,
            c.contrast_enhancement == 1200000,
    {
        PreprocessingConfig {
            enable_deskew: true,
            enable_denoise: true,
            binarization_method: BinarizationMethod::Adaptive,
            contrast_enhancement: 1200000,
        }
    }
}

/// Layout-model settings.
#[derive(Debug, Clone)]
pub struct LayoutConfig {
    pub model_path: Option<String>,
    /// Minimum region confidence, in millionths (default 0.3).
    pub confidence_threshold: Option<i64>,
    /// Model input size (default 1024).
    pub input_size: Option<u32>,
}

/// OCR settings.
#[derive(Debug, Clone)]
pub struct OcrConfig {
    pub engine: OcrEngine,
    pub language: String,
    /// Minimum recognition confidence, in millionths.
    pub confidence_threshold: i64,
    pub model_dir: Option<String>,
}

/// Debug output settings.
#[derive(Debug, Clone)]
pub struct DebugConfig {
    pub save_intermediate: bool,
    pub output_dir: Option<String>,
    pub verbose: bool,
}

impl Default for DebugConfig {
    fn default() -> (c: Self)
        ensures
            !c.save_intermediate,
            c.output_dir.is_none(),
            !c.verbose,
    {
        DebugConfig { save_intermediate: false, output_dir: None, verbose: false }
    }
}

/// Complete detector configuration.
#[derive(Debug, Clone)]
pub struct DetectorConfig {
    pub preprocessing: PreprocessingConfig,
    pub question_patterns: Vec<QuestionPattern>,
    pub ocr: Option<OcrConfig>,
    pub layout: Option<LayoutConfig>,
    pub debug: DebugConfig,
}

impl Default for DetectorConfig {
    fn default() -> (c: Self)
        ensures
            c.preprocessing.enable_deskew,
            c.preprocessing.enable_denoise,
            c.preprocessing.binarization_method == BinarizationMethod::Adaptive,
            c.preprocessing.contrast_enhancement == 1200000,
            c.question_patterns@.len() == 4,
            c.question_patterns@[0].pattern_type == PatternType::Numbered,
            c.question_patterns@[1].pattern_type == PatternType::Parenthesized,
            c.question_patterns@[2].pattern_type == PatternType::Chinese,
            c.question_patterns@[3].pattern_type == PatternType::Bracketed,
            c.ocr.is_none(),
            c.layout.is_none(),
            !c.debug.save_intermediate,
            c.debug.output_dir.is_none(),
            !c.debug.verbose,
    {
        DetectorConfig {
            preprocessing: PreprocessingConfig::default(),
            question_patterns: QuestionPattern::default_patterns(),
            ocr: None,
            layout: None,
            debug: DebugConfig::default(),
        }
    }
}

/// Diagnostic information attached to a question region.
#[derive(Debug, Clone)]
pub struct QuestionDebugInfo {
    pub num_blocks: usize,
    pub detection_method: String,
    pub has_options: bool,
    pub has_image: bool,
}

/// A detected question region.
#[derive(Debug, Clone)]
pub struct QuestionBox {
    pub page_index: usize,
    pub question_id: String,
    pub bounding_box: Rect,
    pub title_anchor_box: Option<Rect>,
    /// Confidence in millionths.
    pub confidence: i64,
    pub recognized_title_text: Option<String>,
    pub block_ids: Vec<usize>,
    pub debug_info: Option<QuestionDebugInfo>,
}

/// Summary figures of a detection run.
#[derive(Debug, Clone)]
pub struct ResultMetadata {
    pub total_questions: usize,
    pub processing_time_ms: u64,
    pub image_width: u32,
    pub image_height: u32,
    pub num_columns: usize,
}

/// Result of a detection run.
#[derive(Debug, Clone)]
pub struct DetectionResult {
    pub status: DetectionStatus,
    pub questions: Vec<QuestionBox>,
    pub metadata: ResultMetadata,
    pub error: Option<String>,
}

/// A text block on the page.
#[derive(Debug, Clone)]
pub struct TextBlock {
    pub id: usize,
    pub bbox: Rect,
    pub text: Option<String>,
    /// Confidence in millionths.
    pub confidence: i64,
    pub block_type: BlockType,
}

/// The position of a question number.
#[derive(Debug, Clone)]
pub struct QuestionAnchor {
    pub question_id: String,
    pub bbox: Rect,
    /// Confidence in millionths.
    pub confidence: i64,
    pub text: String,
    pub pattern_type: PatternType,
}

/// Per-image processing options.
#[derive(Debug, Clone)]
pub struct ProcessOptions {
    pub page_index: usize,
    pub include_debug: bool,
    pub save_intermediate: bool,
}

impl Default for ProcessOptions {
    fn default() -> (o: Self)
        ensures
            o.page_index == 0,
            !o.include_debug,
            !o.save_intermediate,
    {
        ProcessOptions { page_index: 0, include_debug: false, save_intermediate: false }
    }
}

} // verus!
