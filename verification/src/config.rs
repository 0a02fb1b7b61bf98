//! The size of the model, the length of a run, and the numbers that training and
//! sampling go by.
//!
//! Real numbers are given by the bits of an IEEE 754 double.

use vstd::prelude::*;

verus! {

/// The number of transformer layers.
pub const N_LAYER: usize = 1;

/// The width of the network.
pub const N_EMBD: usize = 16;

/// The longest context: how many positions a document may have.
pub const BLOCK_SIZE: usize = 16;

/// The number of attention heads.
pub const N_HEAD: usize = 4;

/// The width of an attention head.
pub const HEAD_DIM: usize = N_EMBD / N_HEAD;

/// The number of training steps.
pub const NUM_STEPS: usize = 1000;

/// The number of names to generate.
pub const NUM_SAMPLES: usize = 20;

/// The seed for the data and the initial parameters.
pub const TRAINING_SEED: u64 = 42;

/// The seed for sampling.
pub const SAMPLING_SEED: u64 = 1337;

/// The bits of `0.01`, the learning rate of the first step.
pub const LEARNING_RATE: u64 = 0x3F84_7AE1_47AE_147B;

/// The bits of `0.85`, the share of the first moment that is kept in a step.
pub const BETA1: u64 = 0x3FEB_3333_3333_3333;

/// The bits of `0.99`, the share of the second moment that is kept in a step.
pub const BETA2: u64 = 0x3FEF_AE14_7AE1_47AE;

/// The bits of `1e-8`, which keeps the optimizer from dividing by zero.
pub const EPS_ADAM: u64 = 0x3E45_798E_E230_8C3A;

/// The bits of `1e-5`, which keeps the normalisation from dividing by zero.
pub const EPS_NORM: u64 = 0x3EE4_F8B5_88E3_68F1;

/// The bits of `0.5`, the temperature of the sampler.
pub const TEMPERATURE: u64 = 0x3FE0_0000_0000_0000;

/// The bits of `0.08`, the standard deviation of the initial parameters.
pub const INIT_STD: u64 = 0x3FB4_7AE1_47AE_147B;

/// The bits of `1e-15`, the least draw whose logarithm is taken.
pub const LEAST_DRAW: u64 = 0x3CD2_03AF_9EE7_5616;

/// The bits of the number pi.
pub const PI: u64 = 0x4009_21FB_5444_2D18;

/// The bits of `0.0`, from which both moments of every parameter start.
pub const INITIAL_MOMENT: u64 = 0;

} // verus!
