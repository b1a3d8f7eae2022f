use vstd::prelude::*;

pub use crate::sat::{Backend, GraphDivisionMode, OrderEncodingLinearMode};

verus! {

/// Options of the solving pipeline.
#[derive(Clone, Copy, Debug, PartialEq, Eq, Structural)]
pub struct Config {
    pub use_constant_folding: bool,
    pub use_constant_propagation: bool,
    pub use_norm_domain_refinement: bool,
    pub use_direct_encoding: bool,
    pub use_log_encoding: bool,
    pub force_use_log_encoding: bool,
    pub use_native_extension_supports: bool,
    pub direct_encoding_for_binary_vars: bool,
    pub merge_equivalent_variables: bool,
    pub alldifferent_bijection_constraints: bool,
    pub dump_analysis_info: bool,
    pub glucose_rnd_init_act: bool,
    pub optimize_polarity: bool,
    pub verbose: bool,
    pub domain_product_threshold: usize,
    pub native_linear_encoding_terms: usize,
    pub native_linear_encoding_domain_product_threshold: usize,
    pub backend: Backend,
    pub order_encoding_linear_mode: OrderEncodingLinearMode,
    pub graph_division_mode: GraphDivisionMode,
}

/// The built-in defaults.
pub open spec fn initial_default_spec() -> Config {
    Config {
        use_constant_folding: true,
        use_constant_propagation: true,
        use_norm_domain_refinement: true,
        use_direct_encoding: true,
        use_log_encoding: true,
        force_use_log_encoding: false,
        use_native_extension_supports: false,
        direct_encoding_for_binary_vars: false,
        merge_equivalent_variables: false,
        alldifferent_bijection_constraints: false,
        dump_analysis_info: false,
        glucose_rnd_init_act: false,
        optimize_polarity: false,
        verbose: false,
        domain_product_threshold: 1000,
        native_linear_encoding_terms: 4,
        native_linear_encoding_domain_product_threshold: 20,
        backend: Backend::Glucose,
        order_encoding_linear_mode: OrderEncodingLinearMode::Cpp,
        graph_division_mode: GraphDivisionMode::Cpp,
    }
}

impl Config {
    /// The built-in defaults.
    pub fn initial_default() -> (r: Config)
        ensures
            r == initial_default_spec(),
    {
        Config {
            use_constant_folding: true,
            use_constant_propagation: true,
            use_norm_domain_refinement: true,
            use_direct_encoding: true,
            use_log_encoding: true,
            force_use_log_encoding: false,
            use_native_extension_supports: false,
            direct_encoding_for_binary_vars: false,
            merge_equivalent_variables: false,
            alldifferent_bijection_constraints: false,
            dump_analysis_info: false,
            glucose_rnd_init_act: false,
            optimize_polarity: false,
            verbose: false,
            domain_product_threshold: 1000,
            native_linear_encoding_terms: 4,
            native_linear_encoding_domain_product_threshold: 20,
            backend: Backend::Glucose,
            order_encoding_linear_mode: OrderEncodingLinearMode::Cpp,
            graph_division_mode: GraphDivisionMode::Cpp,
        }
    }

    /// The configuration used when none is given: the built-in defaults.
    pub fn default() -> (r: Config)
        ensures
            r == initial_default_spec(),
    {
        Config::initial_default()
    }
}

/// The number of on/off options of a configuration.
pub const NUM_BOOL_OPTIONS: usize = 14;

/// The on/off option with index `i`, in the order of `bool_option_names`.
pub open spec fn bool_option(c: Config, i: usize) -> bool {
    match i {
        0 => c.use_constant_folding,
        1 => c.use_constant_propagation,
        2 => c.use_norm_domain_refinement,
        3 => c.use_direct_encoding,
        4 => c.use_log_encoding,
        5 => c.force_use_log_encoding,
        6 => c.use_native_extension_supports,
        7 => c.direct_encoding_for_binary_vars,
        8 => c.merge_equivalent_variables,
        9 => c.alldifferent_bijection_constraints,
        10 => c.dump_analysis_info,
        11 => c.glucose_rnd_init_act,
        12 => c.optimize_polarity,
        _ => c.verbose,
    }
}

/// `c` with on/off option `i` set to `v`.
#[verifier::opaque]
pub open spec fn with_bool_option(c: Config, i: usize, v: bool) -> Config {
    match i {
        0 => Config { use_constant_folding: v, ..c },
        1 => Config { use_constant_propagation: v, ..c },
        2 => Config { use_norm_domain_refinement: v, ..c },
        3 => Config { use_direct_encoding: v, ..c },
        4 => Config { use_log_encoding: v, ..c },
        5 => Config { force_use_log_encoding: v, ..c },
        6 => Config { use_native_extension_supports: v, ..c },
        7 => Config { direct_encoding_for_binary_vars: v, ..c },
        8 => Config { merge_equivalent_variables: v, ..c },
        9 => Config { alldifferent_bijection_constraints: v, ..c },
        10 => Config { dump_analysis_info: v, ..c },
        11 => Config { glucose_rnd_init_act: v, ..c },
        12 => Config { optimize_polarity: v, ..c },
        _ => Config { verbose: v, ..c },
    }
}

/// `a` and `b` agree on everything but the on/off options.
pub open spec fn same_settings(a: Config, b: Config) -> bool {
    &&& a.domain_product_threshold == b.domain_product_threshold
    &&& a.native_linear_encoding_terms == b.native_linear_encoding_terms
    &&& a.native_linear_encoding_domain_product_threshold == b.native_linear_encoding_domain_product_threshold
    &&& a.backend == b.backend
    &&& a.order_encoding_linear_mode == b.order_encoding_linear_mode
    &&& a.graph_division_mode == b.graph_division_mode
}

/// Option `i` of `with_bool_option(c, i, v)` reads `v`; every other option
/// and setting reads as in `c`.
#[verifier::opaque]
pub open spec fn sets_only(c: Config, i: usize, v: bool) -> bool {
    &&& bool_option(with_bool_option(c, i, v), i) == v
    &&& forall|j: usize| j < NUM_BOOL_OPTIONS && j != i ==> #[trigger] bool_option(with_bool_option(c, i, v), j) == bool_option(c, j)
    &&& same_settings(with_bool_option(c, i, v), c)
}

/// Setting on/off option `i` (the one named `bool_option_name(i)`) to `v`
/// makes that option read `v` and leaves every other option and setting as
/// it was.
pub proof fn lemma_with_bool_option(c: Config, i: usize, v: bool)
    requires
        i < NUM_BOOL_OPTIONS,
    ensures
        sets_only(c, i, v),
        bool_option(with_bool_option(c, i, v), i) == v,
        forall|j: usize| j < NUM_BOOL_OPTIONS && j != i ==> #[trigger] bool_option(with_bool_option(c, i, v), j) == bool_option(c, j),
        same_settings(with_bool_option(c, i, v), c),
{
    lemma_sets_only(c, i, v);
    lemma_sets_only_facts(c, i, v);
}

/// What `sets_only` says.
proof fn lemma_sets_only_facts(c: Config, i: usize, v: bool)
    requires
        sets_only(c, i, v),
    ensures
        bool_option(with_bool_option(c, i, v), i) == v,
        forall|j: usize| j < NUM_BOOL_OPTIONS && j != i ==> #[trigger] bool_option(with_bool_option(c, i, v), j) == bool_option(c, j),
        same_settings(with_bool_option(c, i, v), c),
{
    reveal(sets_only);
}

proof fn lemma_sets_only(c: Config, i: usize, v: bool)
    requires
        i < NUM_BOOL_OPTIONS,
    ensures
        sets_only(c, i, v),
{
    match i {
        0 => lemma_set_option_0(c, v),
        1 => lemma_set_option_1(c, v),
        2 => lemma_set_option_2(c, v),
        3 => lemma_set_option_3(c, v),
        4 => lemma_set_option_4(c, v),
        5 => lemma_set_option_5(c, v),
        6 => lemma_set_option_6(c, v),
        7 => lemma_set_option_7(c, v),
        8 => lemma_set_option_8(c, v),
        9 => lemma_set_option_9(c, v),
        10 => lemma_set_option_10(c, v),
        11 => lemma_set_option_11(c, v),
        12 => lemma_set_option_12(c, v),
        _ => lemma_set_option_13(c, v),
    }
}

proof fn lemma_set_option_0(c: Config, v: bool)
    ensures
        sets_only(c, 0, v),
{
    reveal(with_bool_option);
    reveal(sets_only);
}

proof fn lemma_set_option_1(c: Config, v: bool)
    ensures
        sets_only(c, 1, v),
{
    reveal(with_bool_option);
    reveal(sets_only);
}

proof fn lemma_set_option_2(c: Config, v: bool)
    ensures
        sets_only(c, 2, v),
{
    reveal(with_bool_option);
    reveal(sets_only);
}

proof fn lemma_set_option_3(c: Config, v: bool)
    ensures
        sets_only(c, 3, v),
{
    reveal(with_bool_option);
    reveal(sets_only);
}

proof fn lemma_set_option_4(c: Config, v: bool)
    ensures
        sets_only(c, 4, v),
{
    reveal(with_bool_option);
    reveal(sets_only);
}

proof fn lemma_set_option_5(c: Config, v: bool)
    ensures
        sets_only(c, 5, v),
{
    reveal(with_bool_option);
    reveal(sets_only);
}

proof fn lemma_set_option_6(c: Config, v: bool)
    ensures
        sets_only(c, 6, v),
{
    reveal(with_bool_option);
    reveal(sets_only);
}

proof fn lemma_set_option_7(c: Config, v: bool)
    ensures
        sets_only(c, 7, v),
{
    reveal(with_bool_option);
    reveal(sets_only);
}

proof fn lemma_set_option_8(c: Config, v: bool)
    ensures
        sets_only(c, 8, v),
{
    reveal(with_bool_option);
    reveal(sets_only);
}

proof fn lemma_set_option_9(c: Config, v: bool)
    ensures
        sets_only(c, 9, v),
{
    reveal(with_bool_option);
    reveal(sets_only);
}

proof fn lemma_set_option_10(c: Config, v: bool)
    ensures
        sets_only(c, 10, v),
{
    reveal(with_bool_option);
    reveal(sets_only);
}

proof fn lemma_set_option_11(c: Config, v: bool)
    ensures
        sets_only(c, 11, v),
{
    reveal(with_bool_option);
    reveal(sets_only);
}

proof fn lemma_set_option_12(c: Config, v: bool)
    ensures
        sets_only(c, 12, v),
{
    reveal(with_bool_option);
    reveal(sets_only);
}

proof fn lemma_set_option_13(c: Config, v: bool)
    ensures
        sets_only(c, 13, v),
{
    reveal(with_bool_option);
    reveal(sets_only);
}

impl Config {
    /// The configuration with on/off option `i` set to `v`.
    pub fn with_option(self, i: usize, v: bool) -> (r: Config)
        requires
            i < NUM_BOOL_OPTIONS,
        ensures
            r == with_bool_option(self, i, v),
            sets_only(self, i, v),
            bool_option(r, i) == v,
            forall|j: usize| j < NUM_BOOL_OPTIONS && j != i ==> #[trigger] bool_option(r, j) == bool_option(self, j),
            same_settings(r, self),
    {
        proof {
            lemma_with_bool_option(self, i, v);
            reveal(with_bool_option);
        }
        match i {
            0 => Config { use_constant_folding: v, ..self },
            1 => Config { use_constant_propagation: v, ..self },
            2 => Config { use_norm_domain_refinement: v, ..self },
            3 => Config { use_direct_encoding: v, ..self },
            4 => Config { use_log_encoding: v, ..self },
            5 => Config { force_use_log_encoding: v, ..self },
            6 => Config { use_native_extension_supports: v, ..self },
            7 => Config { direct_encoding_for_binary_vars: v, ..self },
            8 => Config { merge_equivalent_variables: v, ..self },
            9 => Config { alldifferent_bijection_constraints: v, ..self },
            10 => Config { dump_analysis_info: v, ..self },
            11 => Config { glucose_rnd_init_act: v, ..self },
            12 => Config { optimize_polarity: v, ..self },
            _ => Config { verbose: v, ..self },
        }
    }

    /// The value of on/off option `i`.
    pub fn get_bool_option(&self, i: usize) -> (r: bool)
        requires
            i < NUM_BOOL_OPTIONS,
        ensures
            r == bool_option(*self, i),
    {
        match i {
            0 => self.use_constant_folding,
            1 => self.use_constant_propagation,
            2 => self.use_norm_domain_refinement,
            3 => self.use_direct_encoding,
            4 => self.use_log_encoding,
            5 => self.force_use_log_encoding,
            6 => self.use_native_extension_supports,
            7 => self.direct_encoding_for_binary_vars,
            8 => self.merge_equivalent_variables,
            9 => self.alldifferent_bijection_constraints,
            10 => self.dump_analysis_info,
            11 => self.glucose_rnd_init_act,
            12 => self.optimize_polarity,
            _ => self.verbose,
        }
    }
}

/// The command-line name of on/off option `i` (as in `--enable-NAME`).
pub open spec fn bool_option_name(i: usize) -> Seq<char> {
    match i {
        0 => "use-constant-folding"@,
        1 => "use-constant-propagation"@,
        2 => "use-norm-domain-refinement"@,
        3 => "use-direct-encoding"@,
        4 => "use-log-encoding"@,
        5 => "force-use-log-encoding"@,
        6 => "use-native-extension-supports"@,
        7 => "direct-encoding-for-binary-vars"@,
        8 => "merge-equivalent-variables"@,
        9 => "alldifferent-bijection-constraints"@,
        10 => "dump-analysis-info"@,
        11 => "glucose-rnd-init-act"@,
        12 => "optimize-polarity"@,
        _ => "verbose"@,
    }
}

/// The on/off option of `c` that the command line calls `name` (as in
/// `--enable-NAME`): the field of that name.
pub open spec fn option_named(c: Config, name: Seq<char>) -> Option<bool> {
    if name == "use-constant-folding"@ {
        Some(c.use_constant_folding)
    } else if name == "use-constant-propagation"@ {
        Some(c.use_constant_propagation)
    } else if name == "use-norm-domain-refinement"@ {
        Some(c.use_norm_domain_refinement)
    } else if name == "use-direct-encoding"@ {
        Some(c.use_direct_encoding)
    } else if name == "use-log-encoding"@ {
        Some(c.use_log_encoding)
    } else if name == "force-use-log-encoding"@ {
        Some(c.force_use_log_encoding)
    } else if name == "use-native-extension-supports"@ {
        Some(c.use_native_extension_supports)
    } else if name == "direct-encoding-for-binary-vars"@ {
        Some(c.direct_encoding_for_binary_vars)
    } else if name == "merge-equivalent-variables"@ {
        Some(c.merge_equivalent_variables)
    } else if name == "alldifferent-bijection-constraints"@ {
        Some(c.alldifferent_bijection_constraints)
    } else if name == "dump-analysis-info"@ {
        Some(c.dump_analysis_info)
    } else if name == "glucose-rnd-init-act"@ {
        Some(c.glucose_rnd_init_act)
    } else if name == "optimize-polarity"@ {
        Some(c.optimize_polarity)
    } else if name == "verbose"@ {
        Some(c.verbose)
    } else {
        None
    }
}

/// On/off option `i` is the field named `bool_option_name(i)`.
pub proof fn lemma_option_names(c: Config, i: usize)
    requires
        i < NUM_BOOL_OPTIONS,
    ensures
        option_named(c, bool_option_name(i)) == Some(bool_option(c, i)),
{
    match i {
        0 => lemma_option_named_0(c),
        1 => lemma_option_named_1(c),
        2 => lemma_option_named_2(c),
        3 => lemma_option_named_3(c),
        4 => lemma_option_named_4(c),
        5 => lemma_option_named_5(c),
        6 => lemma_option_named_6(c),
        7 => lemma_option_named_7(c),
        8 => lemma_option_named_8(c),
        9 => lemma_option_named_9(c),
        10 => lemma_option_named_10(c),
        11 => lemma_option_named_11(c),
        12 => lemma_option_named_12(c),
        _ => lemma_option_named_13(c),
    }
}

proof fn lemma_option_named_0(c: Config)
    ensures
        option_named(c, bool_option_name(0)) == Some(bool_option(c, 0)),
{
    reveal_strlit("use-constant-folding");
}

proof fn lemma_option_named_1(c: Config)
    ensures
        option_named(c, bool_option_name(1)) == Some(bool_option(c, 1)),
{
    reveal_strlit("use-constant-folding");
    reveal_strlit("use-constant-propagation");
    assert("use-constant-propagation"@.len() != "use-constant-folding"@.len());
}

proof fn lemma_option_named_2(c: Config)
    ensures
        option_named(c, bool_option_name(2)) == Some(bool_option(c, 2)),
{
    reveal_strlit("use-constant-folding");
    reveal_strlit("use-constant-propagation");
    reveal_strlit("use-norm-domain-refinement");
    assert("use-norm-domain-refinement"@.len() != "use-constant-folding"@.len());
    assert("use-norm-domain-refinement"@.len() != "use-constant-propagation"@.len());
}

proof fn lemma_option_named_3(c: Config)
    ensures
        option_named(c, bool_option_name(3)) == Some(bool_option(c, 3)),
{
    reveal_strlit("use-constant-folding");
    reveal_strlit("use-constant-propagation");
    reveal_strlit("use-norm-domain-refinement");
    reveal_strlit("use-direct-encoding");
    assert("use-direct-encoding"@.len() != "use-constant-folding"@.len());
    assert("use-direct-encoding"@.len() != "use-constant-propagation"@.len());
    assert("use-direct-encoding"@.len() != "use-norm-domain-refinement"@.len());
}

proof fn lemma_option_named_4(c: Config)
    ensures
        option_named(c, bool_option_name(4)) == Some(bool_option(c, 4)),
{
    reveal_strlit("use-constant-folding");
    reveal_strlit("use-constant-propagation");
    reveal_strlit("use-norm-domain-refinement");
    reveal_strlit("use-direct-encoding");
    reveal_strlit("use-log-encoding");
    assert("use-log-encoding"@.len() != "use-constant-folding"@.len());
    assert("use-log-encoding"@.len() != "use-constant-propagation"@.len());
    assert("use-log-encoding"@.len() != "use-norm-domain-refinement"@.len());
    assert("use-log-encoding"@.len() != "use-direct-encoding"@.len());
}

proof fn lemma_option_named_5(c: Config)
    ensures
        option_named(c, bool_option_name(5)) == Some(bool_option(c, 5)),
{
    reveal_strlit("use-constant-folding");
    reveal_strlit("use-constant-propagation");
    reveal_strlit("use-norm-domain-refinement");
    reveal_strlit("use-direct-encoding");
    reveal_strlit("use-log-encoding");
    reveal_strlit("force-use-log-encoding");
    assert("force-use-log-encoding"@.len() != "use-constant-folding"@.len());
    assert("force-use-log-encoding"@.len() != "use-constant-propagation"@.len());
    assert("force-use-log-encoding"@.len() != "use-norm-domain-refinement"@.len());
    assert("force-use-log-encoding"@.len() != "use-direct-encoding"@.len());
    assert("force-use-log-encoding"@.len() != "use-log-encoding"@.len());
}

proof fn lemma_option_named_6(c: Config)
    ensures
        option_named(c, bool_option_name(6)) == Some(bool_option(c, 6)),
{
    reveal_strlit("use-constant-folding");
    reveal_strlit("use-constant-propagation");
    reveal_strlit("use-norm-domain-refinement");
    reveal_strlit("use-direct-encoding");
    reveal_strlit("use-log-encoding");
    reveal_strlit("force-use-log-encoding");
    reveal_strlit("use-native-extension-supports");
    assert("use-native-extension-supports"@.len() != "use-constant-folding"@.len());
    assert("use-native-extension-supports"@.len() != "use-constant-propagation"@.len());
    assert("use-native-extension-supports"@.len() != "use-norm-domain-refinement"@.len());
    assert("use-native-extension-supports"@.len() != "use-direct-encoding"@.len());
    assert("use-native-extension-supports"@.len() != "use-log-encoding"@.len());
    assert("use-native-extension-supports"@.len() != "force-use-log-encoding"@.len());
}

proof fn lemma_option_named_7(c: Config)
    ensures
        option_named(c, bool_option_name(7)) == Some(bool_option(c, 7)),
{
    reveal_strlit("use-constant-folding");
    reveal_strlit("use-constant-propagation");
    reveal_strlit("use-norm-domain-refinement");
    reveal_strlit("use-direct-encoding");
    reveal_strlit("use-log-encoding");
    reveal_strlit("force-use-log-encoding");
    reveal_strlit("use-native-extension-supports");
    reveal_strlit("direct-encoding-for-binary-vars");
    assert("direct-encoding-for-binary-vars"@.len() != "use-constant-folding"@.len());
    assert("direct-encoding-for-binary-vars"@.len() != "use-constant-propagation"@.len());
    assert("direct-encoding-for-binary-vars"@.len() != "use-norm-domain-refinement"@.len());
    assert("direct-encoding-for-binary-vars"@.len() != "use-direct-encoding"@.len());
    assert("direct-encoding-for-binary-vars"@.len() != "use-log-encoding"@.len());
    assert("direct-encoding-for-binary-vars"@.len() != "force-use-log-encoding"@.len());
    assert("direct-encoding-for-binary-vars"@.len() != "use-native-extension-supports"@.len());
}

proof fn lemma_option_named_8(c: Config)
    ensures
        option_named(c, bool_option_name(8)) == Some(bool_option(c, 8)),
{
    reveal_strlit("use-constant-folding");
    reveal_strlit("use-constant-propagation");
    reveal_strlit("use-norm-domain-refinement");
    reveal_strlit("use-direct-encoding");
    reveal_strlit("use-log-encoding");
    reveal_strlit("force-use-log-encoding");
    reveal_strlit("use-native-extension-supports");
    reveal_strlit("direct-encoding-for-binary-vars");
    reveal_strlit("merge-equivalent-variables");
    assert("merge-equivalent-variables"@.len() != "use-constant-folding"@.len());
    assert("merge-equivalent-variables"@.len() != "use-constant-propagation"@.len());
    assert("merge-equivalent-variables"@[0] != "use-norm-domain-refinement"@[0]);
    assert("merge-equivalent-variables"@.len() != "use-direct-encoding"@.len());
    assert("merge-equivalent-variables"@.len() != "use-log-encoding"@.len());
    assert("merge-equivalent-variables"@.len() != "force-use-log-encoding"@.len());
    assert("merge-equivalent-variables"@.len() != "use-native-extension-supports"@.len());
    assert("merge-equivalent-variables"@.len() != "direct-encoding-for-binary-vars"@.len());
}

proof fn lemma_option_named_9(c: Config)
    ensures
        option_named(c, bool_option_name(9)) == Some(bool_option(c, 9)),
{
    reveal_strlit("use-constant-folding");
    reveal_strlit("use-constant-propagation");
    reveal_strlit("use-norm-domain-refinement");
    reveal_strlit("use-direct-encoding");
    reveal_strlit("use-log-encoding");
    reveal_strlit("force-use-log-encoding");
    reveal_strlit("use-native-extension-supports");
    reveal_strlit("direct-encoding-for-binary-vars");
    reveal_strlit("merge-equivalent-variables");
    reveal_strlit("alldifferent-bijection-constraints");
    assert("alldifferent-bijection-constraints"@.len() != "use-constant-folding"@.len());
    assert("alldifferent-bijection-constraints"@.len() != "use-constant-propagation"@.len());
    assert("alldifferent-bijection-constraints"@.len() != "use-norm-domain-refinement"@.len());
    assert("alldifferent-bijection-constraints"@.len() != "use-direct-encoding"@.len());
    assert("alldifferent-bijection-constraints"@.len() != "use-log-encoding"@.len());
    assert("alldifferent-bijection-constraints"@.len() != "force-use-log-encoding"@.len());
    assert("alldifferent-bijection-constraints"@.len() != "use-native-extension-supports"@.len());
    assert("alldifferent-bijection-constraints"@.len() != "direct-encoding-for-binary-vars"@.len());
    assert("alldifferent-bijection-constraints"@.len() != "merge-equivalent-variables"@.len());
}

proof fn lemma_option_named_10(c: Config)
    ensures
        option_named(c, bool_option_name(10)) == Some(bool_option(c, 10)),
{
    reveal_strlit("use-constant-folding");
    reveal_strlit("use-constant-propagation");
    reveal_strlit("use-norm-domain-refinement");
    reveal_strlit("use-direct-encoding");
    reveal_strlit("use-log-encoding");
    reveal_strlit("force-use-log-encoding");
    reveal_strlit("use-native-extension-supports");
    reveal_strlit("direct-encoding-for-binary-vars");
    reveal_strlit("merge-equivalent-variables");
    reveal_strlit("alldifferent-bijection-constraints");
    reveal_strlit("dump-analysis-info");
    assert("dump-analysis-info"@.len() != "use-constant-folding"@.len());
    assert("dump-analysis-info"@.len() != "use-constant-propagation"@.len());
    assert("dump-analysis-info"@.len() != "use-norm-domain-refinement"@.len());
    assert("dump-analysis-info"@.len() != "use-direct-encoding"@.len());
    assert("dump-analysis-info"@.len() != "use-log-encoding"@.len());
    assert("dump-analysis-info"@.len() != "force-use-log-encoding"@.len());
    assert("dump-analysis-info"@.len() != "use-native-extension-supports"@.len());
    assert("dump-analysis-info"@.len() != "direct-encoding-for-binary-vars"@.len());
    assert("dump-analysis-info"@.len() != "merge-equivalent-variables"@.len());
    assert("dump-analysis-info"@.len() != "alldifferent-bijection-constraints"@.len());
}

proof fn lemma_option_named_11(c: Config)
    ensures
        option_named(c, bool_option_name(11)) == Some(bool_option(c, 11)),
{
    reveal_strlit("use-constant-folding");
    reveal_strlit("use-constant-propagation");
    reveal_strlit("use-norm-domain-refinement");
    reveal_strlit("use-direct-encoding");
    reveal_strlit("use-log-encoding");
    reveal_strlit("force-use-log-encoding");
    reveal_strlit("use-native-extension-supports");
    reveal_strlit("direct-encoding-for-binary-vars");
    reveal_strlit("merge-equivalent-variables");
    reveal_strlit("alldifferent-bijection-constraints");
    reveal_strlit("dump-analysis-info");
    reveal_strlit("glucose-rnd-init-act");
    assert("glucose-rnd-init-act"@[0] != "use-constant-folding"@[0]);
    assert("glucose-rnd-init-act"@.len() != "use-constant-propagation"@.len());
    assert("glucose-rnd-init-act"@.len() != "use-norm-domain-refinement"@.len());
    assert("glucose-rnd-init-act"@.len() != "use-direct-encoding"@.len());
    assert("glucose-rnd-init-act"@.len() != "use-log-encoding"@.len());
    assert("glucose-rnd-init-act"@.len() != "force-use-log-encoding"@.len());
    assert("glucose-rnd-init-act"@.len() != "use-native-extension-supports"@.len());
    assert("glucose-rnd-init-act"@.len() != "direct-encoding-for-binary-vars"@.len());
    assert("glucose-rnd-init-act"@.len() != "merge-equivalent-variables"@.len());
    assert("glucose-rnd-init-act"@.len() != "alldifferent-bijection-constraints"@.len());
    assert("glucose-rnd-init-act"@.len() != "dump-analysis-info"@.len());
}

proof fn lemma_option_named_12(c: Config)
    ensures
        option_named(c, bool_option_name(12)) == Some(bool_option(c, 12)),
{
    reveal_strlit("use-constant-folding");
    reveal_strlit("use-constant-propagation");
    reveal_strlit("use-norm-domain-refinement");
    reveal_strlit("use-direct-encoding");
    reveal_strlit("use-log-encoding");
    reveal_strlit("force-use-log-encoding");
    reveal_strlit("use-native-extension-supports");
    reveal_strlit("direct-encoding-for-binary-vars");
    reveal_strlit("merge-equivalent-variables");
    reveal_strlit("alldifferent-bijection-constraints");
    reveal_strlit("dump-analysis-info");
    reveal_strlit("glucose-rnd-init-act");
    reveal_strlit("optimize-polarity");
    assert("optimize-polarity"@.len() != "use-constant-folding"@.len());
    assert("optimize-polarity"@.len() != "use-constant-propagation"@.len());
    assert("optimize-polarity"@.len() != "use-norm-domain-refinement"@.len());
    assert("optimize-polarity"@.len() != "use-direct-encoding"@.len());
    assert("optimize-polarity"@.len() != "use-log-encoding"@.len());
    assert("optimize-polarity"@.len() != "force-use-log-encoding"@.len());
    assert("optimize-polarity"@.len() != "use-native-extension-supports"@.len());
    assert("optimize-polarity"@.len() != "direct-encoding-for-binary-vars"@.len());
    assert("optimize-polarity"@.len() != "merge-equivalent-variables"@.len());
    assert("optimize-polarity"@.len() != "alldifferent-bijection-constraints"@.len());
    assert("optimize-polarity"@.len() != "dump-analysis-info"@.len());
    assert("optimize-polarity"@.len() != "glucose-rnd-init-act"@.len());
}

proof fn lemma_option_named_13(c: Config)
    ensures
        option_named(c, bool_option_name(13)) == Some(bool_option(c, 13)),
{
    reveal_strlit("use-constant-folding");
    reveal_strlit("use-constant-propagation");
    reveal_strlit("use-norm-domain-refinement");
    reveal_strlit("use-direct-encoding");
    reveal_strlit("use-log-encoding");
    reveal_strlit("force-use-log-encoding");
    reveal_strlit("use-native-extension-supports");
    reveal_strlit("direct-encoding-for-binary-vars");
    reveal_strlit("merge-equivalent-variables");
    reveal_strlit("alldifferent-bijection-constraints");
    reveal_strlit("dump-analysis-info");
    reveal_strlit("glucose-rnd-init-act");
    reveal_strlit("optimize-polarity");
    reveal_strlit("verbose");
    assert("verbose"@.len() != "use-constant-folding"@.len());
    assert("verbose"@.len() != "use-constant-propagation"@.len());
    assert("verbose"@.len() != "use-norm-domain-refinement"@.len());
    assert("verbose"@.len() != "use-direct-encoding"@.len());
    assert("verbose"@.len() != "use-log-encoding"@.len());
    assert("verbose"@.len() != "force-use-log-encoding"@.len());
    assert("verbose"@.len() != "use-native-extension-supports"@.len());
    assert("verbose"@.len() != "direct-encoding-for-binary-vars"@.len());
    assert("verbose"@.len() != "merge-equivalent-variables"@.len());
    assert("verbose"@.len() != "alldifferent-bijection-constraints"@.len());
    assert("verbose"@.len() != "dump-analysis-info"@.len());
    assert("verbose"@.len() != "glucose-rnd-init-act"@.len());
    assert("verbose"@.len() != "optimize-polarity"@.len());
}

/// The command-line names of the on/off options (`--enable-NAME`,
/// `--disable-NAME`) and what each does.
pub fn bool_option_names() -> (r: Vec<(&'static str, &'static str)>)
    ensures
        r@.len() == NUM_BOOL_OPTIONS,
        forall|i: int| 0 <= i < NUM_BOOL_OPTIONS ==> (#[trigger] r@[i]).0@ == bool_option_name(i as usize),
{
    let mut r: Vec<(&'static str, &'static str)> = Vec::new();
    r.push(("use-constant-folding", "constant folding"));
    r.push(("use-constant-propagation", "constant propagation"));
    r.push(("use-norm-domain-refinement", "domain refinement in normalized CSP"));
    r.push(("use-direct-encoding", "use direct encoding if applicable"));
    r.push(("use-log-encoding", "use log encoding if applicable"));
    r.push(("force-use-log-encoding", "use log encoding for all int variables"));
    r.push(("use-native-extension-supports", "use native propagator for extension (supports) constraints"));
    r.push(("direct-encoding-for-binary-vars", "use direct encoding for binary variables"));
    r.push(("merge-equivalent-variables", "merge equivalent variables (which is caused by, for example, (iff x y))"));
    r.push(("alldifferent-bijection-constraints", "add auxiliary constraints for bijective alldifferent constraints"));
    r.push(("dump-analysis-info", "dump analysis info in Glucose"));
    r.push(("glucose-rnd-init-act", "rnd_init_act in Glucose"));
    r.push(("optimize-polarity", "use polarity-based optimization in decide_irrefutable_facts"));
    r.push(("verbose", "show verbose outputs"));
    r
}

/// What the command line asked for, option by option.
pub struct ParsedOptions {
    /// `--enable-NAME` was given, for each on/off option.
    pub enable: Vec<bool>,
    /// `--disable-NAME` was given, for each on/off option.
    pub disable: Vec<bool>,
    pub domain_product_threshold: Option<Vec<char>>,
    pub native_linear_encoding_terms: Option<Vec<char>>,
    pub native_linear_encoding_domain_product: Option<Vec<char>>,
    pub backend: Option<Vec<char>>,
    pub order_encoding_linear_mode: Option<Vec<char>>,
}

/// Why a command line gives no configuration.
#[derive(Clone, Copy, Debug, PartialEq, Eq, Structural)]
pub enum ConfigArgError {
    /// Both `--enable-NAME` and `--disable-NAME` for on/off option `i`.
    ConflictingOptions(usize),
    /// The value of a numeric option is not a number: the threshold (0),
    /// the number of terms (1), the domain product (2).
    ParseFailed(usize),
    UnknownBackend,
    UnknownLinearMode,
}

/// The value of a decimal numeral with an optional leading `+`, where it
/// is one.
pub open spec fn decimal_value(s: Seq<char>) -> Option<int>
    decreases s.len(),
{
    if s.len() == 0 {
        None
    } else if s.len() == 1 && s[0] == '+' {
        None
    } else if s[0] == '+' {
        digits_value(s.drop_first())
    } else {
        digits_value(s)
    }
}

/// The value of a non-empty string of decimal digits.
pub open spec fn digits_value(s: Seq<char>) -> Option<int>
    decreases s.len(),
{
    if s.len() == 0 {
        None
    } else if !('0' <= s.last() <= '9') {
        None
    } else if s.len() == 1 {
        Some(s.last() as int - '0' as int)
    } else {
        match digits_value(s.drop_last()) {
            Some(v) => Some(v * 10 + (s.last() as int - '0' as int)),
            None => None,
        }
    }
}

proof fn lemma_digits_prefix(s: Seq<char>, k: int)
    requires
        1 <= k <= s.len(),
        forall|i: int| 0 <= i < s.len() ==> '0' <= #[trigger] s[i] <= '9',
    ensures
        digits_value(s.take(k)) is Some,
        k < s.len() ==> digits_value(s.take(k + 1)) == Some(digits_value(s.take(k))->0 * 10 + (s[k] as int - '0' as int)),
        digits_value(s.take(k))->0 >= 0,
    decreases k,
{
    if k < s.len() {
        assert(s.take(k + 1).drop_last() =~= s.take(k));
    }
    if k > 1 {
        lemma_digits_prefix(s, k - 1);
        assert(s.take(k).drop_last() =~= s.take(k - 1));
    }
}

/// Parses a `usize` in decimal, as `str::parse` does: `None` where the
/// string is not a numeral or its value is too large.
pub fn parse_usize(s: &Vec<char>) -> (r: Option<usize>)
    ensures
        r == (match decimal_value(s@) {
            Some(v) => if v <= usize::MAX { Some(v as usize) } else { None },
            None => None,
        }),
{
    let n = s.len();
    if n == 0 {
        return None;
    }
    let start: usize = if s[0] == '+' { 1 } else { 0 };
    if start == n {
        return None;
    }
    let ghost body = if start == 1 { s@.drop_first() } else { s@ };
    proof {
        assert(body =~= s@.skip(start as int));
        if start == 1 {
            assert(s@.drop_first() =~= s@.skip(1));
        } else {
            assert(s@.skip(0) =~= s@);
        }
        assert(decimal_value(s@) == digits_value(body));
    }
    let mut i = start;
    while i < n
        invariant
            start <= i <= n,
            start < n,
            n == s@.len(),
            (start == 1) == (s@[0] == '+'),
            start <= 1,
            body == s@.skip(start as int),
            decimal_value(s@) == digits_value(body),
            forall|k: int| start <= k < i ==> '0' <= #[trigger] s@[k] <= '9',
        decreases n - i,
    {
        if !('0' <= s[i] && s[i] <= '9') {
            proof {
                assert(body[i - start] == s@[i as int]);
                lemma_digits_bad(body, i - start);
                assert(decimal_value(s@) == digits_value(body));
            }
            return None;
        }
        i += 1;
    }
    proof {
        assert forall|k: int| 0 <= k < body.len() implies '0' <= #[trigger] body[k] <= '9' by {
            assert(body[k] == s@[k + start]);
        }
    }
    let mut value: usize = 0;
    let mut j = start;
    while j < n
        invariant
            start < n,
            start <= j <= n,
            n == s@.len(),
            (start == 1) == (s@[0] == '+'),
            start <= 1,
            body == s@.skip(start as int),
            decimal_value(s@) == digits_value(body),
            forall|k: int| 0 <= k < body.len() ==> '0' <= #[trigger] body[k] <= '9',
            j > start ==> digits_value(body.take(j - start)) == Some(value as int),
            j == start ==> value == 0,
        decreases n - j,
    {
        proof {
            assert(body[j - start] == s@[j as int]);
            assert('0' <= s@[j as int] <= '9');
        }
        let d = (s[j] as u32 - '0' as u32) as usize;
        proof {
            lemma_digits_prefix(body, (j - start + 1) as int);
            if j > start {
                lemma_digits_prefix(body, (j - start) as int);
            } else {
                assert(body.take(1).drop_last().len() == 0);
            }
        }
        if value > (usize::MAX - d) / 10 {
            proof {
                lemma_digits_grow(body, (j - start + 1) as int);
                assert(digits_value(body.take(j - start + 1)) == Some(value * 10 + d));
                assert(value * 10 + d > usize::MAX);
                assert(decimal_value(s@) == digits_value(body));
            }
            return None;
        }
        value = value * 10 + d;
        j += 1;
    }
    proof {
        assert(body.take(body.len() as int) =~= body);
        assert(decimal_value(s@) == digits_value(body));
    }
    Some(value)
}

proof fn lemma_digits_bad(s: Seq<char>, k: int)
    requires
        0 <= k < s.len(),
        !('0' <= s[k] <= '9'),
    ensures
        digits_value(s) is None,
    decreases s.len(),
{
    if k < s.len() - 1 {
        lemma_digits_bad(s.drop_last(), k);
    }
}

proof fn lemma_digits_grow(s: Seq<char>, k: int)
    requires
        1 <= k <= s.len(),
        forall|i: int| 0 <= i < s.len() ==> '0' <= #[trigger] s[i] <= '9',
    ensures
        digits_value(s) is Some,
        digits_value(s)->0 >= digits_value(s.take(k))->0,
    decreases s.len() - k,
{
    lemma_digits_prefix(s, k);
    if k < s.len() {
        lemma_digits_prefix(s, k + 1);
        lemma_digits_grow(s, k + 1);
    } else {
        assert(s.take(k) =~= s);
    }
}

/// `s` spells `word`.
fn spells(s: &Vec<char>, word: &[char]) -> (r: bool)
    ensures
        r == (s@ == word@),
{
    if s.len() != word.len() {
        return false;
    }
    let mut i: usize = 0;
    while i < s.len()
        invariant
            s@.len() == word@.len(),
            i <= s@.len(),
            forall|k: int| 0 <= k < i ==> s@[k] == word@[k],
        decreases s@.len() - i,
    {
        if s[i] != word[i] {
            return false;
        }
        i += 1;
    }
    assert(s@ =~= word@);
    true
}

/// The backend named `s`: `glucose`, `external` or `cadical`.
pub fn parse_backend(s: &Vec<char>) -> (r: Option<Backend>)
    ensures
        r == (if s@ == seq!['g', 'l', 'u', 'c', 'o', 's', 'e'] {
            Some(Backend::Glucose)
        } else if s@ == seq!['e', 'x', 't', 'e', 'r', 'n', 'a', 'l'] {
            Some(Backend::External)
        } else if s@ == seq!['c', 'a', 'd', 'i', 'c', 'a', 'l'] {
            Some(Backend::CaDiCaL)
        } else {
            None
        }),
{
    let glucose = ['g', 'l', 'u', 'c', 'o', 's', 'e'];
    let external = ['e', 'x', 't', 'e', 'r', 'n', 'a', 'l'];
    let cadical = ['c', 'a', 'd', 'i', 'c', 'a', 'l'];
    assert(glucose@ =~= seq!['g', 'l', 'u', 'c', 'o', 's', 'e']);
    assert(external@ =~= seq!['e', 'x', 't', 'e', 'r', 'n', 'a', 'l']);
    assert(cadical@ =~= seq!['c', 'a', 'd', 'i', 'c', 'a', 'l']);
    if spells(s, &glucose) {
        Some(Backend::Glucose)
    } else if spells(s, &external) {
        Some(Backend::External)
    } else if spells(s, &cadical) {
        Some(Backend::CaDiCaL)
    } else {
        None
    }
}

/// The implementation kind named `s`: `cpp`, `rust` or `rust-optimized`.
pub fn parse_linear_mode(s: &Vec<char>) -> (r: Option<OrderEncodingLinearMode>)
    ensures
        r == (if s@ == seq!['c', 'p', 'p'] {
            Some(OrderEncodingLinearMode::Cpp)
        } else if s@ == seq!['r', 'u', 's', 't'] {
            Some(OrderEncodingLinearMode::Rust)
        } else if s@ == seq!['r', 'u', 's', 't', '-', 'o', 'p', 't', 'i', 'm', 'i', 'z', 'e', 'd'] {
            Some(OrderEncodingLinearMode::RustOptimized)
        } else {
            None
        }),
{
    let cpp = ['c', 'p', 'p'];
    let rust = ['r', 'u', 's', 't'];
    let rust_opt = ['r', 'u', 's', 't', '-', 'o', 'p', 't', 'i', 'm', 'i', 'z', 'e', 'd'];
    assert(cpp@ =~= seq!['c', 'p', 'p']);
    assert(rust@ =~= seq!['r', 'u', 's', 't']);
    assert(rust_opt@ =~= seq!['r', 'u', 's', 't', '-', 'o', 'p', 't', 'i', 'm', 'i', 'z', 'e', 'd']);
    if spells(s, &cpp) {
        Some(OrderEncodingLinearMode::Cpp)
    } else if spells(s, &rust) {
        Some(OrderEncodingLinearMode::Rust)
    } else if spells(s, &rust_opt) {
        Some(OrderEncodingLinearMode::RustOptimized)
    } else {
        None
    }
}

/// The on/off options of `base` after the flags: an option given as
/// enabled (disabled) is on (off); the first option given both ways is an
/// error.
pub open spec fn flags_result(base: Config, enable: Seq<bool>, disable: Seq<bool>, k: int) -> Result<Config, ConfigArgError>
    decreases k,
{
    if k <= 0 {
        Ok(base)
    } else {
        match flags_result(base, enable, disable, k - 1) {
            Ok(c) => if enable[k - 1] && disable[k - 1] {
                Err(ConfigArgError::ConflictingOptions((k - 1) as usize))
            } else if enable[k - 1] {
                Ok(with_bool_option(c, (k - 1) as usize, true))
            } else if disable[k - 1] {
                Ok(with_bool_option(c, (k - 1) as usize, false))
            } else {
                Ok(c)
            },
            Err(e) => Err(e),
        }
    }
}

/// A numeric option applied to `c` by `set`: unchanged where absent.
pub open spec fn numeric_result(v: Option<Seq<char>>, idx: usize) -> Result<Option<usize>, ConfigArgError> {
    match v {
        None => Ok(None),
        Some(s) => match decimal_value(s) {
            Some(x) => if x <= usize::MAX { Ok(Some(x as usize)) } else { Err(ConfigArgError::ParseFailed(idx)) },
            None => Err(ConfigArgError::ParseFailed(idx)),
        },
    }
}

/// Applies a numeric option (index `idx`) after a result.
pub open spec fn then_numeric(r: Result<Config, ConfigArgError>, v: Option<Seq<char>>, idx: usize) -> Result<Config, ConfigArgError> {
    match r {
        Err(e) => Err(e),
        Ok(c) => match numeric_result(v, idx) {
            Err(e) => Err(e),
            Ok(None) => Ok(c),
            Ok(Some(x)) => Ok(set_numeric(c, idx, x)),
        },
    }
}

/// `c` with numeric option `idx` set to `x`.
pub open spec fn set_numeric(c: Config, idx: usize, x: usize) -> Config {
    match idx {
        0 => Config { domain_product_threshold: x, ..c },
        1 => Config { native_linear_encoding_terms: x, ..c },
        _ => Config { native_linear_encoding_domain_product_threshold: x, ..c },
    }
}

/// Applies the backend option after a result.
pub open spec fn then_backend(r: Result<Config, ConfigArgError>, v: Option<Seq<char>>) -> Result<Config, ConfigArgError> {
    match r {
        Err(e) => Err(e),
        Ok(c) => match v {
            None => Ok(c),
            Some(s) => if s == seq!['g', 'l', 'u', 'c', 'o', 's', 'e'] {
                Ok(Config { backend: Backend::Glucose, ..c })
            } else if s == seq!['e', 'x', 't', 'e', 'r', 'n', 'a', 'l'] {
                Ok(Config { backend: Backend::External, ..c })
            } else if s == seq!['c', 'a', 'd', 'i', 'c', 'a', 'l'] {
                Ok(Config { backend: Backend::CaDiCaL, ..c })
            } else {
                Err(ConfigArgError::UnknownBackend)
            },
        },
    }
}

/// Applies the option on native linear constraints after a result.
pub open spec fn then_linear_mode(r: Result<Config, ConfigArgError>, v: Option<Seq<char>>) -> Result<Config, ConfigArgError> {
    match r {
        Err(e) => Err(e),
        Ok(c) => match v {
            None => Ok(c),
            Some(s) => if s == seq!['c', 'p', 'p'] {
                Ok(Config { order_encoding_linear_mode: OrderEncodingLinearMode::Cpp, ..c })
            } else if s == seq!['r', 'u', 's', 't'] {
                Ok(Config { order_encoding_linear_mode: OrderEncodingLinearMode::Rust, ..c })
            } else if s == seq!['r', 'u', 's', 't', '-', 'o', 'p', 't', 'i', 'm', 'i', 'z', 'e', 'd'] {
                Ok(Config { order_encoding_linear_mode: OrderEncodingLinearMode::RustOptimized, ..c })
            } else {
                Err(ConfigArgError::UnknownLinearMode)
            },
        },
    }
}

/// The characters of an optional string.
pub open spec fn option_chars(v: Option<Vec<char>>) -> Option<Seq<char>> {
    match v {
        Some(s) => Some(s@),
        None => None,
    }
}

/// The configuration that the flags `enable`, `disable` and the values of
/// the numeric options, the backend and the implementation kind of native
/// linear constraints ask for, on top of `base`.
pub open spec fn settings_result(
    base: Config,
    enable: Seq<bool>,
    disable: Seq<bool>,
    values: Seq<Option<Seq<char>>>,
) -> Result<Config, ConfigArgError> {
    then_linear_mode(
        then_backend(
            then_numeric(
                then_numeric(
                    then_numeric(flags_result(base, enable, disable, NUM_BOOL_OPTIONS as int), values[0], 0),
                    values[1],
                    1,
                ),
                values[2],
                2,
            ),
            values[3],
        ),
        values[4],
    )
}

/// The values of the valued options of `opts`, in the order of
/// `settings_result`.
pub open spec fn option_values(opts: ParsedOptions) -> Seq<Option<Seq<char>>> {
    seq![
        option_chars(opts.domain_product_threshold),
        option_chars(opts.native_linear_encoding_terms),
        option_chars(opts.native_linear_encoding_domain_product),
        option_chars(opts.backend),
        option_chars(opts.order_encoding_linear_mode),
    ]
}

/// The configuration that `opts` asks for on top of `base`.
pub open spec fn options_result(base: Config, opts: ParsedOptions) -> Result<Config, ConfigArgError> {
    settings_result(base, opts.enable@, opts.disable@, option_values(opts))
}

fn numeric_option(v: &Option<Vec<char>>, idx: usize) -> (r: Result<Option<usize>, ConfigArgError>)
    ensures
        r == numeric_result(option_chars(*v), idx),
{
    match v {
        None => Ok(None),
        Some(s) => match parse_usize(s) {
            Some(x) => Ok(Some(x)),
            None => Err(ConfigArgError::ParseFailed(idx)),
        },
    }
}

fn apply_numeric(r: Result<Config, ConfigArgError>, v: &Option<Vec<char>>, idx: usize) -> (out: Result<Config, ConfigArgError>)
    requires
        idx < 3,
    ensures
        out == then_numeric(r, option_chars(*v), idx),
{
    match r {
        Err(e) => Err(e),
        Ok(c) => match numeric_option(v, idx) {
            Err(e) => Err(e),
            Ok(None) => Ok(c),
            Ok(Some(x)) => Ok(
                match idx {
                    0 => Config { domain_product_threshold: x, ..c },
                    1 => Config { native_linear_encoding_terms: x, ..c },
                    _ => Config { native_linear_encoding_domain_product_threshold: x, ..c },
                },
            ),
        },
    }
}

fn apply_backend(r: Result<Config, ConfigArgError>, v: &Option<Vec<char>>) -> (out: Result<Config, ConfigArgError>)
    ensures
        out == then_backend(r, option_chars(*v)),
{
    match r {
        Err(e) => Err(e),
        Ok(c) => match v {
            None => Ok(c),
            Some(s) => match parse_backend(s) {
                Some(b) => Ok(Config { backend: b, ..c }),
                None => Err(ConfigArgError::UnknownBackend),
            },
        },
    }
}

fn apply_linear_mode(r: Result<Config, ConfigArgError>, v: &Option<Vec<char>>) -> (out: Result<Config, ConfigArgError>)
    ensures
        out == then_linear_mode(r, option_chars(*v)),
{
    match r {
        Err(e) => Err(e),
        Ok(c) => match v {
            None => Ok(c),
            Some(s) => match parse_linear_mode(s) {
                Some(m) => Ok(Config { order_encoding_linear_mode: m, ..c }),
                None => Err(ConfigArgError::UnknownLinearMode),
            },
        },
    }
}

#[verifier::rlimit(60)]
fn apply_flags(base: Config, enable: &Vec<bool>, disable: &Vec<bool>) -> (r: Result<Config, ConfigArgError>)
    requires
        enable@.len() == NUM_BOOL_OPTIONS,
        disable@.len() == NUM_BOOL_OPTIONS,
    ensures
        r == flags_result(base, enable@, disable@, NUM_BOOL_OPTIONS as int),
{
    let mut config = base;
    let mut i: usize = 0;
    while i < NUM_BOOL_OPTIONS
        invariant
            enable@.len() == NUM_BOOL_OPTIONS,
            disable@.len() == NUM_BOOL_OPTIONS,
            i <= NUM_BOOL_OPTIONS,
            flags_result(base, enable@, disable@, i as int) == Ok::<Config, ConfigArgError>(config),
        decreases NUM_BOOL_OPTIONS - i,
    {
        let e = enable[i];
        let d = disable[i];
        if e && d {
            proof {
                assert(flags_result(base, enable@, disable@, (i + 1) as int) is Err);
                lemma_flags_err_stays(base, enable@, disable@, (i + 1) as int, NUM_BOOL_OPTIONS as int);
            }
            return Err(ConfigArgError::ConflictingOptions(i));
        } else if e {
            config = config.with_option(i, true);
        } else if d {
            config = config.with_option(i, false);
        }
        i += 1;
    }
    Ok(config)
}

/// The configuration that the command-line options `opts` ask for, on top
/// of `base`: the on/off flags, then the numeric options, the backend and
/// the implementation kind of native linear constraints.
pub fn config_from_options(base: Config, opts: &ParsedOptions) -> (r: Result<Config, ConfigArgError>)
    requires
        opts.enable@.len() == NUM_BOOL_OPTIONS,
        opts.disable@.len() == NUM_BOOL_OPTIONS,
    ensures
        r == options_result(base, *opts),
{
    let r0 = apply_flags(base, &opts.enable, &opts.disable);
    let r1 = apply_numeric(r0, &opts.domain_product_threshold, 0);
    let r2 = apply_numeric(r1, &opts.native_linear_encoding_terms, 1);
    let r3 = apply_numeric(r2, &opts.native_linear_encoding_domain_product, 2);
    let r4 = apply_backend(r3, &opts.backend);
    apply_linear_mode(r4, &opts.order_encoding_linear_mode)
}

proof fn lemma_flags_err_stays(base: Config, enable: Seq<bool>, disable: Seq<bool>, k: int, m: int)
    requires
        0 <= k <= m,
        flags_result(base, enable, disable, k) is Err,
    ensures
        flags_result(base, enable, disable, m) == flags_result(base, enable, disable, k),
    decreases m - k,
{
    if k < m {
        lemma_flags_err_stays(base, enable, disable, k, m - 1);
    }
}

} // verus!
