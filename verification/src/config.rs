//! Runtime configuration and its defaults.
//!
//! Ratios and confidences are numbers of single precision, held as their bit
//! patterns.

use crate::paths;
use crate::paths::join_paths;
use crate::table::TextMap;
use crate::text::own;
use vstd::prelude::*;

verus! {

/// 0.45.
pub const MIN_CONFIDENCE: u32 = 0x3ee6_6666;

/// 0.05.
pub const SIZE_TOLERANCE: u32 = 0x3d4c_cccd;

/// 1.6.
pub const MIN_RATIO: u32 = 0x3fcc_cccd;

/// 0.25.
pub const MAX_GROWTH: u32 = 0x3e80_0000;

pub struct Config {
    pub source: String,
    pub work_dir: String,
    pub library: String,
    pub extract: ExtractConfig,
    pub model: ModelConfig,
    pub vision: VisionConfig,
    pub taxonomy: TaxonomyConfig,
    pub dedupe: DedupeConfig,
    pub bookmarks: BookmarksConfig,
    pub systems: SystemsConfig,
}

pub struct ExtractConfig {
    /// How many leading pages to pull text from.
    pub pages: usize,
    /// Characters of probe text handed to the model.
    pub max_chars: usize,
    /// Below this many non-whitespace characters across `pages`, the PDF is
    /// treated as an image scan and handed to the vision pass.
    pub scanned_threshold: usize,
    /// Seconds before an external extractor call is abandoned.
    pub timeout_secs: u64,
}

pub struct ModelConfig {
    /// Path to a GGUF model file.
    pub path: String,
    /// Layers pushed onto the GPU. 999 means "all of them".
    pub gpu_layers: u32,
    pub context: u32,
    pub max_tokens: i32,
    pub seed: u32,
    /// Chat template wrapper. "chatml" suits most instruct GGUFs.
    pub template: String,
}

/// The vision model, used only for PDFs that yield no extractable text.
pub struct VisionConfig {
    /// Turn the vision pass off entirely; text-poor PDFs then fall back to
    /// judging by file name alone.
    pub enabled: bool,
    /// A vision-language GGUF.
    pub path: String,
    /// Its multimodal projector. A VL model needs both files.
    pub mmproj: String,
    pub gpu_layers: u32,
    pub context: u32,
    pub max_tokens: i32,
    pub template: String,
    /// Longest edge of the rendered page, in pixels; the aspect ratio is kept.
    pub max_pixels: u32,
    /// Upper bound on the tokens the projector may spend on one image. -1 uses
    /// the model's own default.
    pub image_max_tokens: i32,
}

pub struct TaxonomyConfig {
    /// Upper bound on leaf folders the model may invent.
    pub max_leaves: usize,
    /// Maximum path depth, e.g. 3 = "System/Type/Subtype".
    pub max_depth: usize,
    /// A leaf with fewer documents than this gets folded into its parent.
    pub min_docs_per_leaf: usize,
    /// Assignments below this confidence land in `_Unsorted` instead.
    pub min_confidence: u32,
}

/// How re-saved copies of one work are recognised.
pub struct DedupeConfig {
    /// Fold copies of one work that are not identical files.
    pub near_duplicates: bool,
    /// How far two sizes may lie apart, as a share of the larger copy.
    pub size_tolerance: u32,
}

/// How the names of game systems are spelled.
pub struct SystemsConfig {
    /// Spellings that extend or override the built-in ones, by the name in lower
    /// case.
    pub aliases: TextMap<String>,
}

/// How chapter indexes are built.
pub struct BookmarksConfig {
    /// Documents shorter than this are left alone.
    pub min_pages: usize,
    /// How much larger than body text a heading must be set.
    pub min_ratio: u32,
    /// How many levels a chapter index may have.
    pub max_depth: usize,
    /// How much a rewritten file may grow, as a share of its size.
    pub max_growth: u32,
}

impl VisionConfig {
    /// What holds of a configuration nobody has touched.
    pub open spec fn is_default(self) -> bool {
        &&& self.enabled
        &&& self.path@ == "models/Qwen2.5-VL-7B-Instruct-Q4_K_M.gguf"@
        &&& self.mmproj@ == "models/mmproj-Qwen2.5-VL-7B-Instruct-f16.gguf"@
        &&& self.gpu_layers == 999
        &&& self.context == 8192
        &&& self.max_tokens == 512
        &&& self.template@ == "chatml"@
        &&& self.max_pixels == 2100
        &&& self.image_max_tokens == 2048
    }
}

impl Default for VisionConfig {
    fn default() -> (r: Self)
        ensures
            r.is_default(),
    {
        VisionConfig {
            enabled: true,
            path: own("models/Qwen2.5-VL-7B-Instruct-Q4_K_M.gguf"),
            mmproj: own("models/mmproj-Qwen2.5-VL-7B-Instruct-f16.gguf"),
            gpu_layers: 999,
            context: 8192,
            max_tokens: 512,
            template: own("chatml"),
            max_pixels: 2100,
            image_max_tokens: 2048,
        }
    }
}

impl ExtractConfig {
    /// What holds of a configuration nobody has touched.
    pub open spec fn is_default(self) -> bool {
        &&& self.pages == 12
        &&& self.max_chars == 6000
        &&& self.scanned_threshold == 800
        &&& self.timeout_secs == 60
    }
}

impl Default for ExtractConfig {
    fn default() -> (r: Self)
        ensures
            r.is_default(),
    {
        ExtractConfig { pages: 12, max_chars: 6000, scanned_threshold: 800, timeout_secs: 60 }
    }
}

impl ModelConfig {
    /// What holds of a configuration nobody has touched.
    pub open spec fn is_default(self) -> bool {
        &&& self.path@ == "models/model.gguf"@
        &&& self.gpu_layers == 999
        &&& self.context == 8192
        &&& self.max_tokens == 512
        &&& self.seed == 1337
        &&& self.template@ == "chatml"@
    }
}

impl Default for ModelConfig {
    fn default() -> (r: Self)
        ensures
            r.is_default(),
    {
        ModelConfig {
            path: own("models/model.gguf"),
            gpu_layers: 999,
            context: 8192,
            max_tokens: 512,
            seed: 1337,
            template: own("chatml"),
        }
    }
}

impl TaxonomyConfig {
    /// What holds of a configuration nobody has touched.
    pub open spec fn is_default(self) -> bool {
        &&& self.max_leaves == 40
        &&& self.max_depth == 3
        &&& self.min_docs_per_leaf == 3
        &&& self.min_confidence == MIN_CONFIDENCE
    }
}

impl Default for TaxonomyConfig {
    fn default() -> (r: Self)
        ensures
            r.is_default(),
    {
        TaxonomyConfig { max_leaves: 40, max_depth: 3, min_docs_per_leaf: 3, min_confidence: MIN_CONFIDENCE }
    }
}

impl DedupeConfig {
    /// What holds of a configuration nobody has touched.
    pub open spec fn is_default(self) -> bool {
        &&& self.near_duplicates
        &&& self.size_tolerance == SIZE_TOLERANCE
    }
}

impl Default for DedupeConfig {
    fn default() -> (r: Self)
        ensures
            r.is_default(),
    {
        DedupeConfig { near_duplicates: true, size_tolerance: SIZE_TOLERANCE }
    }
}

impl SystemsConfig {
    /// What holds of a configuration nobody has touched.
    pub open spec fn is_default(self) -> bool {
        self.aliases@ == Map::<Seq<char>, String>::empty()
    }
}

impl Default for SystemsConfig {
    fn default() -> (r: Self)
        ensures
            r.is_default(),
    {
        SystemsConfig { aliases: TextMap::new() }
    }
}

impl BookmarksConfig {
    /// What holds of a configuration nobody has touched.
    pub open spec fn is_default(self) -> bool {
        &&& self.min_pages == 10
        &&& self.min_ratio == MIN_RATIO
        &&& self.max_depth == 4
        &&& self.max_growth == MAX_GROWTH
    }
}

impl Default for BookmarksConfig {
    fn default() -> (r: Self)
        ensures
            r.is_default(),
    {
        BookmarksConfig { min_pages: 10, min_ratio: MIN_RATIO, max_depth: 4, max_growth: MAX_GROWTH }
    }
}

impl Config {
    /// What holds of a configuration nobody has touched.
    pub open spec fn is_default(self) -> bool {
        &&& self.source@ == "."@
        &&& self.work_dir@ == "tmp"@
        &&& self.library@ == "tmp/library"@
        &&& self.extract.is_default()
        &&& self.model.is_default()
        &&& self.vision.is_default()
        &&& self.taxonomy.is_default()
        &&& self.dedupe.is_default()
        &&& self.bookmarks.is_default()
        &&& self.systems.is_default()
    }
}

impl Default for Config {
    fn default() -> (r: Self)
        ensures
            r.is_default(),
    {
        Config {
            source: own("."),
            work_dir: own("tmp"),
            library: own("tmp/library"),
            extract: ExtractConfig::default(),
            model: ModelConfig::default(),
            vision: VisionConfig::default(),
            taxonomy: TaxonomyConfig::default(),
            dedupe: DedupeConfig::default(),
            bookmarks: BookmarksConfig::default(),
            systems: SystemsConfig::default(),
        }
    }
}

impl Config {
    pub fn cache_dir(&self) -> (r: String)
        ensures
            r@ == paths::join(self.work_dir@, "cache"@),
    {
        join_paths(self.work_dir.as_str(), "cache")
    }

    pub fn plan_path(&self) -> (r: String)
        ensures
            r@ == paths::join(self.work_dir@, "plan.json"@),
    {
        join_paths(self.work_dir.as_str(), "plan.json")
    }

    /// Where rendered pages are written for the vision pass.
    pub fn render_dir(&self) -> (r: String)
        ensures
            r@ == paths::join(self.work_dir@, "renders"@),
    {
        join_paths(self.work_dir.as_str(), "renders")
    }
}

} // verus!
