pub mod accuracy;
pub mod activation;
pub mod adjoint;
pub mod arith;
pub mod backward;
pub mod batches;
pub mod chunking;
pub mod codec;
pub mod descent;
pub mod division;
pub mod evaluation;
pub mod exact;
pub mod filestep;
pub mod formulas;
pub mod head;
pub mod idx;
pub mod initial;
pub mod kernels;
pub mod layout;
pub mod loss;
pub mod outcomes;
pub mod parity;
pub mod passes;
pub mod perceptron;
pub mod residual;
pub mod rows;
pub mod run;
pub mod sampler;
pub mod session;
pub mod skipping;
pub mod softmax;
pub mod statistics;
pub mod steps;
pub mod stream;
pub mod streaming;
pub mod train;
pub mod transfer;
