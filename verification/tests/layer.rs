use rand::RngExt;
use selfnn::layer::Linear;
use selfnn::tensor::Tensor;

fn t(data: Vec<f32>, shape: (usize, usize)) -> Tensor<f32> {
    Tensor::new(data, shape)
}

fn forward(layer: &mut Linear<f32>, x: &Tensor<f32>) -> Tensor<f32> {
    layer.forward_with(x, 0.0, |acc, a, b| acc + a * b, |a, b| a + b)
}

fn backward(layer: &mut Linear<f32>, grad: &Tensor<f32>) -> Tensor<f32> {
    layer.backward_with(grad, 0.0, |acc, a, b| acc + a * b, |a, b| a + b)
}

/// Mean squared error and its gradient, as the training loop computes them.
fn mse(pred: &Tensor<f32>, target: &Tensor<f32>) -> f32 {
    let m = pred.data.len() as f32;
    pred.data.iter().zip(target.data.iter()).map(|(p, t)| (p - t).powf(2.0)).sum::<f32>() / m
}

fn mse_grad(pred: &Tensor<f32>, target: &Tensor<f32>) -> Tensor<f32> {
    let m = pred.data.len() as f32;
    pred.zip_with(target, move |p, t| (2.0 / m) * (p - t))
}

fn sigmoid(x: &Tensor<f32>) -> Tensor<f32> {
    x.map(|v| 1.0 / (1.0 + (-v).exp()))
}

fn sigmoid_grad(out: &Tensor<f32>, grad: &Tensor<f32>) -> Tensor<f32> {
    out.zip_with(grad, |y, g| g * y * (1.0 - y))
}

fn xavier(shape: (usize, usize)) -> Tensor<f32> {
    let limit = (6.0 / (shape.0 + shape.1) as f32).sqrt();
    let data = (0..shape.0 * shape.1).map(|_| rand::rng().random_range(-limit..limit)).collect();
    t(data, shape)
}

#[test]
fn test_linear_forward_shape() {
    let mut layer = Linear::from_weights(xavier((3, 2)), Tensor::full((1, 2), 0.0));
    let x = Tensor::full((4, 3), 1.0);
    let out = forward(&mut layer, &x);
    assert_eq!(out.shape(), (4, 2));
}

#[test]
fn test_linear_forward_computation() {
    let weights = t(vec![1.0, 2.0, 3.0, 4.0, 5.0, 6.0], (2, 3));
    let bias = t(vec![0.5, -0.5, 1.0], (1, 3));

    let mut layer = Linear::from_weights(weights, bias);

    // X * W = [14, 19, 24], + b = [14.5, 18.5, 25.0]
    let x = t(vec![2.0, 3.0], (1, 2));
    let out = forward(&mut layer, &x);

    assert_eq!(out.shape(), (1, 3));
    assert_eq!(out.data, vec![14.5, 18.5, 25.0]);
    assert_eq!(layer.input.as_ref().unwrap().data, vec![2.0, 3.0]);
}

#[test]
fn test_linear_backward() {
    let x = t(vec![1.0, 2.0, 3.0, 4.0], (2, 2));
    let weights = t(vec![0.5, 1.5], (2, 1));
    let bias = t(vec![0.1], (1, 1));

    let mut linear = Linear::from_weights(weights, bias);
    let _ = forward(&mut linear, &x);

    let grad_out = t(vec![1.0, 2.0], (2, 1));
    let grad_in = backward(&mut linear, &grad_out);

    assert_eq!(grad_in.shape(), (2, 2));
    assert_eq!(grad_in.data, vec![0.5, 1.5, 1.0, 3.0]);

    let dw = linear.d_weights.as_ref().unwrap();
    assert_eq!(dw.shape(), (2, 1));
    assert_eq!(dw.data, vec![7.0, 10.0]);

    let db = linear.d_bias.as_ref().unwrap();
    assert_eq!(db.shape(), (1, 1));
    assert_eq!(db.data, vec![3.0]);
}

fn check_gradient(num_grad: f32, ana_grad: f32) {
    let diff = (num_grad - ana_grad).abs();
    let norm = num_grad.abs().max(ana_grad.abs()).max(1e-6);
    let rel_error = diff / norm;
    assert!(
        rel_error < 1e-3,
        "gradient check failed: numerical = {}, analytical = {}, rel_error = {}",
        num_grad,
        ana_grad,
        rel_error
    );
}

#[test]
fn test_numerical_gradient_check_linear() {
    let x = t(vec![1.5, -0.5, 2.0, 1.0], (2, 2));
    let target = t(vec![0.8, 1.2], (2, 1));

    let weights = t(vec![0.4, -0.7], (2, 1));
    let bias = t(vec![0.2], (1, 1));

    let mut layer = Linear::from_weights(weights, bias);

    let pred = forward(&mut layer, &x);
    let loss_grad = mse_grad(&pred, &target);
    let _ = backward(&mut layer, &loss_grad);

    let analytical_dw = layer.d_weights.as_ref().unwrap().clone();
    let analytical_db = layer.d_bias.as_ref().unwrap().clone();

    let eps = 1e-3_f32;

    for i in 0..layer.weights.data.len() {
        let orig = layer.weights.data[i];
        layer.weights.data[i] = orig + eps;
        let loss_pos = mse(&forward(&mut layer, &x), &target);
        layer.weights.data[i] = orig - eps;
        let loss_neg = mse(&forward(&mut layer, &x), &target);
        layer.weights.data[i] = orig;
        check_gradient((loss_pos - loss_neg) / (2.0 * eps), analytical_dw.data[i]);
    }

    for i in 0..layer.bias.data.len() {
        let orig = layer.bias.data[i];
        layer.bias.data[i] = orig + eps;
        let loss_pos = mse(&forward(&mut layer, &x), &target);
        layer.bias.data[i] = orig - eps;
        let loss_neg = mse(&forward(&mut layer, &x), &target);
        layer.bias.data[i] = orig;
        check_gradient((loss_pos - loss_neg) / (2.0 * eps), analytical_db.data[i]);
    }
}

#[test]
fn test_numerical_gradient_check_two_layer() {
    // Linear -> Sigmoid -> mean squared error
    let x = t(vec![0.5, -0.2, 0.1, 0.8], (2, 2));
    let target = t(vec![0.7, 0.3], (2, 1));

    let weights = t(vec![0.6, -0.4], (2, 1));
    let bias = t(vec![0.1], (1, 1));

    let mut linear = Linear::from_weights(weights, bias);

    let a1 = forward(&mut linear, &x);
    let pred = sigmoid(&a1);

    let loss_grad = mse_grad(&pred, &target);
    let grad_a1 = sigmoid_grad(&pred, &loss_grad);
    let _ = backward(&mut linear, &grad_a1);

    let analytical_dw = linear.d_weights.as_ref().unwrap().clone();
    let analytical_db = linear.d_bias.as_ref().unwrap().clone();

    let eps = 1e-3_f32;

    for i in 0..linear.weights.data.len() {
        let orig = linear.weights.data[i];
        linear.weights.data[i] = orig + eps;
        let l_pos = mse(&sigmoid(&forward(&mut linear, &x)), &target);
        linear.weights.data[i] = orig - eps;
        let l_neg = mse(&sigmoid(&forward(&mut linear, &x)), &target);
        linear.weights.data[i] = orig;
        check_gradient((l_pos - l_neg) / (2.0 * eps), analytical_dw.data[i]);
    }

    for i in 0..linear.bias.data.len() {
        let orig = linear.bias.data[i];
        linear.bias.data[i] = orig + eps;
        let l_pos = mse(&sigmoid(&forward(&mut linear, &x)), &target);
        linear.bias.data[i] = orig - eps;
        let l_neg = mse(&sigmoid(&forward(&mut linear, &x)), &target);
        linear.bias.data[i] = orig;
        check_gradient((l_pos - l_neg) / (2.0 * eps), analytical_db.data[i]);
    }
}

#[test]
fn gradient_step_and_zero_grad() {
    let mut layer = Linear::from_weights(t(vec![1.0, 2.0], (2, 1)), t(vec![0.5], (1, 1)));
    layer.d_weights = Some(t(vec![10.0, -10.0], (2, 1)));
    layer.d_bias = Some(t(vec![5.0], (1, 1)));
    let lr = 0.1f32;
    layer.update_with(move |w, g| w - g * lr);
    assert_eq!(layer.weights.data, vec![0.0, 3.0]);
    assert_eq!(layer.bias.data, vec![0.0]);
    layer.zero_grad();
    assert!(layer.d_weights.is_none());
    assert!(layer.d_bias.is_none());
    assert_eq!(layer.weights.data, vec![0.0, 3.0]);
}

#[test]
fn integer_layer_gives_exact_gradients() {
    let mut layer: Linear<i64> = Linear::from_weights(
        Tensor::new(vec![1, 2, 3, 4, 5, 6], (2, 3)),
        Tensor::new(vec![1, 1, 1], (1, 3)),
    );
    let x = Tensor::new(vec![1, 0, 0, 1, 1, 1], (3, 2));
    let out = layer.forward_with(&x, 0, |acc, a, b| acc + a * b, |a, b| a + b);
    assert_eq!(out.data, vec![2, 3, 4, 5, 6, 7, 6, 8, 10]);
    let grad = Tensor::new(vec![1, 0, 0, 0, 1, 0, 0, 0, 1], (3, 3));
    let gi = layer.backward_with(&grad, 0, |acc, a, b| acc + a * b, |a, b| a + b);
    // grad * W^T
    assert_eq!(gi.data, vec![1, 4, 2, 5, 3, 6]);
    // X^T * grad
    assert_eq!(layer.d_weights.as_ref().unwrap().data, vec![1, 0, 1, 0, 1, 1]);
    assert_eq!(layer.d_bias.as_ref().unwrap().data, vec![1, 1, 1]);
}

/// The Adam rule for one parameter after `step` steps, as the training loop applies it.
fn adam_rule(
    lr: f32,
    beta1: f32,
    beta2: f32,
    eps: f32,
    step: i32,
) -> impl Fn(f32, f32, f32, f32) -> (f32, f32, f32) + Copy {
    let bias_correction1 = 1.0 - beta1.powi(step);
    let bias_correction2 = 1.0 - beta2.powi(step);
    move |m, v, w, g| {
        let m = beta1 * m + (1.0 - beta1) * g;
        let v = beta2 * v + (1.0 - beta2) * g.powi(2);
        let m_hat = m / bias_correction1;
        let v_hat = v / bias_correction2;
        let delta = (lr * m_hat) / (v_hat.sqrt() + eps);
        (m, v, w - delta)
    }
}

#[test]
fn test_adam_single_step_analytical_math() {
    let w = t(vec![1.0], (1, 1));
    let b = t(vec![0.5], (1, 1));
    let mut layer = Linear::from_weights(w, b);

    layer.d_weights = Some(t(vec![2.0], (1, 1)));
    layer.d_bias = Some(t(vec![-3.0], (1, 1)));

    let lr = 0.1;
    let beta1 = 0.9;
    let beta2 = 0.999;
    let eps = 1e-8;
    let step = (layer.t + 1) as i32;
    layer.update_adam_with(0.0, adam_rule(lr, beta1, beta2, eps, step));

    // m_hat = 2, v_hat = 4, new_w = 1.0 - 0.1 = 0.9
    assert!((layer.weights.data[0] - 0.9).abs() < 1e-5);
    // m_hat = -3, v_hat = 9, new_b = 0.5 + 0.1 = 0.6
    assert!((layer.bias.data[0] - 0.6).abs() < 1e-5);
}

#[test]
fn adam_keeps_its_moments_between_steps() {
    let mut layer = Linear::from_weights(t(vec![0.0, 0.0], (1, 2)), t(vec![0.0, 0.0], (1, 2)));
    layer.d_weights = Some(t(vec![1.0, -1.0], (1, 2)));
    layer.d_bias = Some(t(vec![0.0, 2.0], (1, 2)));
    // A rule that counts: m accumulates g, v counts steps, w records m.
    let rule = |m: f32, v: f32, _w: f32, g: f32| (m + g, v + 1.0, m + g);
    layer.update_adam_with(0.0, rule);
    assert_eq!(layer.t, 1);
    layer.update_adam_with(0.0, rule);
    assert_eq!(layer.t, 2);
    assert_eq!(layer.m_weights.as_ref().unwrap().data, vec![2.0, -2.0]);
    assert_eq!(layer.v_weights.as_ref().unwrap().data, vec![2.0, 2.0]);
    assert_eq!(layer.weights.data, vec![2.0, -2.0]);
    assert_eq!(layer.m_bias.as_ref().unwrap().data, vec![0.0, 4.0]);
    assert_eq!(layer.bias.data, vec![0.0, 4.0]);
}

#[test]
fn gradients_accumulate_until_zero_grad() {
    let mut linear = Linear::from_weights(t(vec![0.5, 1.5], (2, 1)), t(vec![0.1], (1, 1)));
    let x = t(vec![1.0, 2.0, 3.0, 4.0], (2, 2));
    let grad_out = t(vec![1.0, 2.0], (2, 1));

    let _ = forward(&mut linear, &x);
    let first = backward(&mut linear, &grad_out);
    let second = backward(&mut linear, &grad_out);
    assert_eq!(first.data, second.data);
    assert_eq!(linear.d_weights.as_ref().unwrap().data, vec![14.0, 20.0]);
    assert_eq!(linear.d_bias.as_ref().unwrap().data, vec![6.0]);

    linear.zero_grad();
    let _ = backward(&mut linear, &grad_out);
    assert_eq!(linear.d_weights.as_ref().unwrap().data, vec![7.0, 10.0]);
    assert_eq!(linear.d_bias.as_ref().unwrap().data, vec![3.0]);
}

#[test]
fn a_stored_gradient_of_another_shape_is_replaced() {
    let mut linear = Linear::from_weights(t(vec![0.5, 1.5], (2, 1)), t(vec![0.1], (1, 1)));
    linear.d_weights = Some(t(vec![100.0, 100.0, 100.0], (3, 1)));
    let x = t(vec![1.0, 2.0, 3.0, 4.0], (2, 2));
    let _ = forward(&mut linear, &x);
    let _ = backward(&mut linear, &t(vec![1.0, 2.0], (2, 1)));
    assert_eq!(linear.d_weights.as_ref().unwrap().data, vec![7.0, 10.0]);
    assert_eq!(linear.d_bias.as_ref().unwrap().data, vec![3.0]);
}

#[test]
fn adam_reads_only_as_many_gradients_as_parameters() {
    let mut layer = Linear::from_weights(t(vec![0.0], (1, 1)), t(vec![0.0], (1, 1)));
    layer.d_weights = Some(t(vec![1.0, 99.0], (1, 2)));
    layer.d_bias = Some(t(vec![2.0, 99.0], (2, 1)));
    layer.update_adam_with(0.0, |m: f32, v: f32, _w: f32, g: f32| (m + g, v + 1.0, g));
    assert_eq!(layer.weights.data, vec![1.0]);
    assert_eq!(layer.bias.data, vec![2.0]);
}

#[test]
fn adam_leaves_extra_moment_values_alone() {
    let mut layer = Linear::from_weights(t(vec![0.0], (1, 1)), t(vec![0.0], (1, 1)));
    layer.d_weights = Some(t(vec![1.0], (1, 1)));
    layer.d_bias = Some(t(vec![1.0], (1, 1)));
    layer.m_weights = Some(t(vec![5.0, 7.0], (1, 2)));
    layer.update_adam_with(0.0, |m: f32, v: f32, _w: f32, g: f32| (m + g, v + g, m));
    let mw = layer.m_weights.as_ref().unwrap();
    assert_eq!(mw.shape(), (1, 2));
    assert_eq!(mw.data, vec![6.0, 7.0]);
    assert_eq!(layer.v_weights.as_ref().unwrap().data, vec![1.0]);
    assert_eq!(layer.weights.data, vec![5.0]);
}
