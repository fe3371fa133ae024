use candle_rlcd::config::{
    apply_calibration, clamp_temperature, default_global_every, default_head_layers,
    default_head_max_len, default_local_attention, default_max_len, default_max_pos,
    default_temperature, effective_temperature, temperature_key, AgentConfig, ConfigError,
    EncoderConfig, RawEncoderConfig,
};
use candle_rlcd::json::{parse, Json, Num};
use candle_rlcd::model::Layout;
use candle_rlcd::sequence::QType;

fn agent() -> AgentConfig {
    AgentConfig {
        layout: Layout::Laya,
        head_layers: default_head_layers(),
        act_costs: vec![("wait".to_string(), Json::Null)],
        max_len: default_max_len(),
        head_max_len: default_head_max_len(),
        temperature: default_temperature(),
        temperature_by_options: vec![],
        calibration: None,
    }
}

fn temperature(cfg: &AgentConfig, t: QType, k: usize) -> f64 {
    f64::from_bits(effective_temperature(cfg, t, k))
}

fn encoder() -> RawEncoderConfig {
    RawEncoderConfig {
        vocab_size: 10,
        hidden_size: 8,
        num_hidden_layers: 1,
        num_attention_heads: 2,
        intermediate_size: 16,
        max_position_embeddings: default_max_pos(),
        norm_eps: None,
        layer_norm_eps: None,
        norm_bias: false,
        attention_bias: false,
        mlp_bias: false,
        pad_token_id: None,
        global_attn_every_n_layers: default_global_every(),
        global_rope_theta: None,
        local_rope_theta: None,
        local_attention: default_local_attention(),
        rope_parameters: None,
        layer_types: None,
        hidden_activation: None,
    }
}

fn number(n: &Num) -> f64 {
    match n {
        Num::Nat(n) => *n as f64,
        Num::Neg(n) => *n as f64,
        Num::Float(t) => t.parse().unwrap(),
    }
}

#[test]
fn rope_parameters_override_flat_thetas() {
    let rope = parse(
        br#"{"full_attention": {"rope_theta": 160000.0},
             "sliding_attention": {"rope_theta": 160000.0}}"#,
    )
    .unwrap();
    let cfg = EncoderConfig::from_raw(RawEncoderConfig {
        global_rope_theta: Some(Num::Nat(160000)),
        local_rope_theta: Some(Num::Nat(10000)),
        rope_parameters: Some(rope),
        ..encoder()
    })
    .unwrap();
    assert_eq!(number(&cfg.local_rope_theta), 160000.0);
    assert_eq!(number(&cfg.global_rope_theta), 160000.0);
}

#[test]
fn encoder_settings_have_defaults() {
    let cfg = EncoderConfig::from_raw(RawEncoderConfig {
        num_hidden_layers: 4,
        ..encoder()
    })
    .unwrap();
    assert_eq!(number(&cfg.norm_eps), 1e-5);
    assert_eq!(number(&cfg.global_rope_theta), 160000.0);
    assert_eq!(number(&cfg.local_rope_theta), 10000.0);
    assert_eq!(cfg.local_layers, vec![false, true, true, false]);
    assert_eq!(cfg.head_dim(), 4);
    let cfg = EncoderConfig::from_raw(RawEncoderConfig {
        num_hidden_layers: 2,
        layer_types: Some(vec![
            "sliding_attention".to_string(),
            "full_attention".to_string(),
        ]),
        ..encoder()
    })
    .unwrap();
    assert_eq!(cfg.local_layers, vec![true, false]);
}

#[test]
fn encoder_settings_that_are_not_supported() {
    let e = EncoderConfig::from_raw(RawEncoderConfig {
        hidden_activation: Some("relu".to_string()),
        ..encoder()
    });
    assert_eq!(e, Err(ConfigError::Activation("relu".to_string())));
    let e = EncoderConfig::from_raw(RawEncoderConfig {
        num_hidden_layers: 2,
        layer_types: Some(vec!["full_attention".to_string()]),
        ..encoder()
    });
    assert_eq!(e, Err(ConfigError::LayerCount(1, 2)));
    let e = EncoderConfig::from_raw(RawEncoderConfig {
        layer_types: Some(vec!["other".to_string()]),
        ..encoder()
    });
    assert_eq!(e, Err(ConfigError::LayerType("other".to_string())));
}

#[test]
fn shipped_temperatures_do_not_sharpen_many_options() {
    let mut cfg = agent();
    // A shipped configuration has choice:11+ = 0.1006.
    cfg.temperature_by_options
        .push(("choice:11+".to_string(), 0.1006f64.to_bits()));
    cfg.temperature_by_options
        .push(("choice:6-10".to_string(), 0.7f64.to_bits()));
    assert_eq!(temperature(&cfg, QType::Choice, 11), 1.0);
    assert_eq!(temperature(&cfg, QType::Choice, 200), 1.0);
    // Below 11 options the fitted value (clamped to [0.5, 5]) stands.
    assert_eq!(temperature(&cfg, QType::Choice, 7), 0.7);
    // Temperatures refit here are trusted as they are.
    let one = 1.0f64.to_bits();
    apply_calibration(
        &mut cfg,
        vec![one, one, one],
        vec![("choice:11+".to_string(), 0.8f64.to_bits())],
        None,
    )
    .unwrap();
    assert_eq!(temperature(&cfg, QType::Choice, 11), 0.8);
    assert!(cfg.calibration.is_some());
}

#[test]
fn calibrations_have_one_temperature_per_type() {
    let mut cfg = agent();
    let before = agent();
    assert_eq!(apply_calibration(&mut cfg, vec![1, 2], vec![], None), Err(2));
    assert_eq!(cfg, before);
}

#[test]
fn temperatures_are_clamped() {
    for (t, want) in [
        (0.1, 0.5),
        (0.5, 0.5),
        (1.7, 1.7),
        (5.0, 5.0),
        (9.0, 5.0),
        (-3.0, 0.5),
        (-0.0, 0.5),
        (f64::INFINITY, 1.0),
        (f64::NEG_INFINITY, 1.0),
        (f64::NAN, 1.0),
    ] {
        assert_eq!(f64::from_bits(clamp_temperature(f64::to_bits(t))), want, "{t}");
    }
}

#[test]
fn temperatures_are_kept_by_type_and_option_count() {
    assert_eq!(temperature_key(QType::Choice, 2), "choice:2");
    assert_eq!(temperature_key(QType::Score, 5), "score:3-5");
    assert_eq!(temperature_key(QType::Noul, 10), "noul:6-10");
    assert_eq!(temperature_key(QType::Choice, 11), "choice:11+");
    assert_eq!(agent().n_act(), 2);
}
